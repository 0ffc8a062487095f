//! Whole searches: what holds of them however many workers there are.

use crate::argrep::config::SearchConfig;
use crate::argrep::content;
use crate::argrep::content::Found;
use crate::argrep::rows;
use crate::argrep::rows::Row;
use crate::argrep::scan;
use crate::argrep::scan::{Action, Step};
use crate::ignore_files;
use crate::ignore_files::Layer;
use crate::paths;
use crate::paths::DirEntry;
use crate::runs;
use crate::runs::{Job, Turn};
use vstd::prelude::*;

verus! {

/// What is found at a path.
pub ghost enum Place {
    File,
    /// A directory that cannot be listed.
    Unlisted,
    /// A directory, with the lines of its ignore files.
    Directory { entries: Seq<DirEntry>, ignore_lines: Seq<Seq<Seq<char>>> },
}

/// A file tree as a search sees it.
pub ghost struct Tree {
    pub place: spec_fn(Seq<char>) -> Place,
    /// What can be read of a file, after decompression, and whether reading
    /// fails there.
    pub file: spec_fn(Seq<char>) -> (Seq<u8>, bool),
}

impl Tree {
    /// The entries of a directory have names, each another one, and those that
    /// are said to be directories are no files.
    pub open spec fn wf(self) -> bool {
        forall|dir: Seq<char>|
            (#[trigger] (self.place)(dir)) matches Place::Directory { entries, .. } ==> {
                &&& runs::distinct_names(entries)
                &&& forall|i: int|
                    0 <= i < entries.len() && (#[trigger] entries[i]).is_dir
                        && !entries[i].is_symlink ==> !((self.place)(
                        paths::joined(dir, entries[i].name@),
                    ) is File)
            }
    }
}

/// The directories to enter, in the order of the listing.
pub open spec fn kept_dirs(
    config: SearchConfig,
    layers: Seq<Layer>,
    dir: Seq<char>,
    entries: Seq<DirEntry>,
) -> Seq<Job>
    decreases entries.len(),
{
    if entries.len() == 0 {
        seq![]
    } else {
        let before = kept_dirs(config, layers, dir, entries.drop_last());
        let e = entries.last();
        if e.is_dir && config.keeps(layers, dir, e) {
            before.push(Job { path: paths::joined(dir, e.name@), layers })
        } else {
            before
        }
    }
}

/// The files to search or list, in the order of the listing.
pub open spec fn kept_files(
    config: SearchConfig,
    layers: Seq<Layer>,
    dir: Seq<char>,
    entries: Seq<DirEntry>,
) -> Seq<Seq<char>>
    decreases entries.len(),
{
    if entries.len() == 0 {
        seq![]
    } else {
        let before = kept_files(config, layers, dir, entries.drop_last());
        let e = entries.last();
        if !e.is_dir && config.keeps(layers, dir, e) {
            before.push(paths::joined(dir, e.name@))
        } else {
            before
        }
    }
}

/// An entry that counts as a file that was come upon, as a number.
pub open spec fn is_file() -> spec_fn(DirEntry) -> int {
    |e: DirEntry|
        if !e.is_symlink && !e.is_dir {
            1int
        } else {
            0int
        }
}

/// A file that is left out, as a number.
pub open spec fn is_left_out(config: SearchConfig, layers: Seq<Layer>, dir: Seq<char>) -> spec_fn(
    DirEntry,
) -> int {
    |e: DirEntry|
        if !e.is_symlink && !e.is_dir && !config.keeps(layers, dir, e) {
            1int
        } else {
            0int
        }
}

/// The layers that apply inside the directory of a job.
pub open spec fn inside(config: SearchConfig, job: Job, ignore_lines: Seq<Seq<Seq<char>>>) -> Seq<
    Layer,
> {
    ignore_files::layers_inside(job.layers, config.respect_gitignore, job.path, ignore_lines)
}

/// The jobs that come out of a job.
pub open spec fn subjobs(config: SearchConfig, tree: Tree) -> spec_fn(Job) -> Seq<Job> {
    |job: Job|
        match (tree.place)(job.path) {
            Place::Directory { entries, ignore_lines } => kept_dirs(
                config,
                inside(config, job, ignore_lines),
                job.path,
                entries,
            ),
            _ => seq![],
        }
}

/// The files that a job searches or lists.
pub open spec fn files_of(config: SearchConfig, tree: Tree, job: Job) -> Seq<Seq<char>> {
    match (tree.place)(job.path) {
        Place::File => seq![job.path],
        Place::Unlisted => seq![],
        Place::Directory { entries, ignore_lines } => kept_files(
            config,
            inside(config, job, ignore_lines),
            job.path,
            entries,
        ),
    }
}

/// What is found in a file; under --files, its name alone.
pub open spec fn found_at(config: SearchConfig, tree: Tree) -> spec_fn(Seq<char>) -> Found {
    |path: Seq<char>|
        if config.files_only {
            Found {
                rows: seq![rows::name_row(path)],
                matched_lines: 0,
                bytes_read: 0,
                io_error: false,
            }
        } else {
            let (bytes, failed) = (tree.file)(path);
            content::found_in(config, path, bytes, failed)
        }
}

/// The rows of several files, one after the other.
pub open spec fn rows_of(config: SearchConfig, tree: Tree, files: Seq<Seq<char>>) -> Seq<Row>
    decreases files.len(),
{
    if files.len() == 0 {
        seq![]
    } else {
        rows_of(config, tree, files.drop_last()) + found_at(config, tree)(files.last()).rows
    }
}

/// The rows that a job reports.
pub open spec fn job_rows(config: SearchConfig, tree: Tree) -> spec_fn(Job) -> Seq<Row> {
    |job: Job| rows_of(config, tree, files_of(config, tree, job))
}

/// The counters of a search.
pub ghost struct Counts {
    pub total_files: int,
    pub total_dirs: int,
    pub matched_lines: int,
    pub io_errors: int,
    pub files_discovered: int,
    pub files_skipped: int,
    pub bytes_read: int,
}

/// What a job adds to the counters.
pub open spec fn job_counts(config: SearchConfig, tree: Tree) -> spec_fn(Job) -> Counts {
    |job: Job|
        {
            let place = (tree.place)(job.path);
            let files = files_of(config, tree, job);
            let found = found_at(config, tree);
            Counts {
                total_files: files.len() as int,
                total_dirs: if place is File {
                    0
                } else {
                    1
                },
                matched_lines: runs::amount(files, |p: Seq<char>| found(p).matched_lines),
                io_errors: (if place is Unlisted {
                    1int
                } else {
                    0int
                }) + runs::amount(
                    files,
                    |p: Seq<char>|
                        if found(p).io_error {
                            1int
                        } else {
                            0int
                        },
                ),
                files_discovered: match place {
                    Place::File => 1,
                    Place::Unlisted => 0,
                    Place::Directory { entries, .. } => runs::amount(entries, is_file()),
                },
                files_skipped: match place {
                    Place::Directory { entries, ignore_lines } => runs::amount(
                        entries,
                        is_left_out(config, inside(config, job, ignore_lines), job.path),
                    ),
                    _ => 0,
                },
                bytes_read: runs::amount(files, |p: Seq<char>| found(p).bytes_read),
            }
        }
}

/// The counters after a number of jobs.
pub open spec fn counts_after(config: SearchConfig, tree: Tree, jobs: Seq<Job>) -> Counts {
    let c = job_counts(config, tree);
    Counts {
        total_files: runs::amount(jobs, |j: Job| c(j).total_files),
        total_dirs: runs::amount(jobs, |j: Job| c(j).total_dirs),
        matched_lines: runs::amount(jobs, |j: Job| c(j).matched_lines),
        io_errors: runs::amount(jobs, |j: Job| c(j).io_errors),
        files_discovered: runs::amount(jobs, |j: Job| c(j).files_discovered),
        files_skipped: runs::amount(jobs, |j: Job| c(j).files_skipped),
        bytes_read: runs::amount(jobs, |j: Job| c(j).bytes_read),
    }
}

/// The jobs that steps bring.
pub open spec fn jobs_in(steps: Seq<Step>) -> Seq<Job>
    decreases steps.len(),
{
    if steps.len() == 0 {
        seq![]
    } else {
        let before = jobs_in(steps.drop_last());
        match steps.last().action {
            Action::Descend(t) => before.push(
                Job { path: t.path@, layers: ignore_files::layers((*t.ignore_stack)@) },
            ),
            _ => before,
        }
    }
}

/// The files that steps search or list.
pub open spec fn files_in(steps: Seq<Step>) -> Seq<Seq<char>>
    decreases steps.len(),
{
    if steps.len() == 0 {
        seq![]
    } else {
        let before = files_in(steps.drop_last());
        match steps.last().action {
            Action::Search(p) => before.push(p@),
            Action::List(p) => before.push(p@),
            _ => before,
        }
    }
}

/// The steps that walking a directory calls for do what the job of that
/// directory is to do: they bring its jobs, search or list its files, and count
/// as it counts.
pub proof fn steps_do_the_job(
    steps: Seq<Step>,
    config: SearchConfig,
    layers: Seq<Layer>,
    dir: Seq<char>,
    entries: Seq<DirEntry>,
)
    requires
        steps.len() == entries.len(),
        forall|i: int|
            0 <= i < steps.len() ==> (#[trigger] steps[i]).is_for(config, layers, dir, entries[i]),
    ensures
        jobs_in(steps) == kept_dirs(config, layers, dir, entries),
        files_in(steps) == kept_files(config, layers, dir, entries),
        scan::taken_in(steps) == kept_files(config, layers, dir, entries).len(),
        scan::discovered_in(steps) == runs::amount(entries, is_file()),
        scan::skipped_in(steps) == runs::amount(entries, is_left_out(config, layers, dir)),
    decreases steps.len(),
{
    if steps.len() > 0 {
        let (fewer, before) = (steps.drop_last(), entries.drop_last());
        assert forall|i: int| 0 <= i < fewer.len() implies (#[trigger] fewer[i]).is_for(
            config,
            layers,
            dir,
            before[i],
        ) by {
            assert(fewer[i] == steps[i] && before[i] == entries[i]);
        }
        steps_do_the_job(fewer, config, layers, dir, before);
        assert(steps[steps.len() - 1].is_for(config, layers, dir, entries[steps.len() - 1]));
    }
}

/// A whole search from `root` with so many workers: their turns, and the stream
/// of rows, each marked with the number of the job that it came from.
/// The rows of a job come out in order, and those of different jobs mix freely.
pub open spec fn is_search(
    config: SearchConfig,
    tree: Tree,
    root: Job,
    workers: nat,
    turns: Seq<Turn<Job>>,
    stream: Seq<(int, Row)>,
) -> bool {
    &&& runs::is_schedule(subjobs(config, tree), runs::at_start(root, workers), turns)
    &&& runs::interleaves(stream, runs::takes_of(turns).map_values(job_rows(config, tree)))
}

/// The jobs of a search make a run.
proof fn lemma_search_is_run(
    config: SearchConfig,
    tree: Tree,
    root: Job,
    workers: nat,
    turns: Seq<Turn<Job>>,
    stream: Seq<(int, Row)>,
)
    requires
        is_search(config, tree, root, workers, turns, stream),
    ensures
        runs::is_run(subjobs(config, tree), seq![root].to_multiset(), runs::takes_of(turns)),
{
    runs::whole_schedules_are_runs(subjobs(config, tree), root, workers, turns);
}

/// However many workers search a tree, and in whatever order they take its
/// directories, the same rows come out, each as often, and every counter ends
/// up the same. Under -q a search may stop early, and its counters may differ.
pub proof fn workers_find_the_same(
    config: SearchConfig,
    tree: Tree,
    root: Job,
    workers: nat,
    turns: Seq<Turn<Job>>,
    stream: Seq<(int, Row)>,
    other_workers: nat,
    other_turns: Seq<Turn<Job>>,
    other_stream: Seq<(int, Row)>,
)
    requires
        !config.quiet,
        is_search(config, tree, root, workers, turns, stream),
        is_search(config, tree, root, other_workers, other_turns, other_stream),
    ensures
        runs::output(stream).to_multiset() == runs::output(other_stream).to_multiset(),
        counts_after(config, tree, runs::takes_of(turns)) == counts_after(
            config,
            tree,
            runs::takes_of(other_turns),
        ),
{
    let (a, b) = (runs::takes_of(turns), runs::takes_of(other_turns));
    let rows = job_rows(config, tree);
    let (xs, ys) = (runs::output(stream), runs::output(other_stream));
    lemma_search_is_run(config, tree, root, workers, turns, stream);
    lemma_search_is_run(config, tree, root, other_workers, other_turns, other_stream);
    runs::runs_take_the_same_tasks(subjobs(config, tree), seq![root].to_multiset(), a, b);
    assert forall|r: Row| #[trigger] xs.to_multiset().count(r) == ys.to_multiset().count(r) by {
        let times = runs::times(r);
        runs::streams_lose_nothing(stream, a.map_values(rows), r);
        runs::streams_lose_nothing(other_stream, b.map_values(rows), r);
        runs::amounts_of_images(a, rows, times);
        runs::amounts_of_images(b, rows, times);
        runs::amounts_agree(a, b, |j: Job| times(rows(j)));
    }
    assert(xs.to_multiset() =~= ys.to_multiset());
    let c = job_counts(config, tree);
    runs::amounts_agree(a, b, |j: Job| c(j).total_files);
    runs::amounts_agree(a, b, |j: Job| c(j).total_dirs);
    runs::amounts_agree(a, b, |j: Job| c(j).matched_lines);
    runs::amounts_agree(a, b, |j: Job| c(j).io_errors);
    runs::amounts_agree(a, b, |j: Job| c(j).files_discovered);
    runs::amounts_agree(a, b, |j: Job| c(j).files_skipped);
    runs::amounts_agree(a, b, |j: Job| c(j).bytes_read);
}

/// Every file of a listing is kept or left out.
proof fn lemma_kept_or_left_out(
    config: SearchConfig,
    layers: Seq<Layer>,
    dir: Seq<char>,
    entries: Seq<DirEntry>,
)
    ensures
        runs::amount(entries, is_file()) == kept_files(config, layers, dir, entries).len()
            + runs::amount(entries, is_left_out(config, layers, dir)),
    decreases entries.len(),
{
    if entries.len() > 0 {
        lemma_kept_or_left_out(config, layers, dir, entries.drop_last());
    }
}

/// At the end of a search, every file that was come upon has been searched or
/// skipped.
pub proof fn every_file_is_accounted_for(config: SearchConfig, tree: Tree, jobs: Seq<Job>)
    ensures
        ({
            let c = counts_after(config, tree, jobs);
            c.files_discovered == c.total_files + c.files_skipped
        }),
    decreases jobs.len(),
{
    if jobs.len() > 0 {
        every_file_is_accounted_for(config, tree, jobs.drop_last());
        let job = jobs.last();
        match (tree.place)(job.path) {
            Place::Directory { entries, ignore_lines } => {
                lemma_kept_or_left_out(
                    config,
                    inside(config, job, ignore_lines),
                    job.path,
                    entries,
                );
            },
            _ => {},
        }
    }
}

/// The path of a job.
spec fn path_of() -> spec_fn(Job) -> Seq<char> {
    |job: Job| job.path
}

/// The job is for one of the directories among the entries of `dir`.
spec fn is_for_entry(job: Job, dir: Seq<char>, entries: Seq<DirEntry>) -> bool {
    exists|k: int|
        0 <= k < entries.len() && (#[trigger] entries[k]).is_dir && !entries[k].is_symlink
            && job.path == paths::joined(dir, entries[k].name@)
}

/// The directories to enter are entries of `dir`.
proof fn lemma_kept_dirs(
    config: SearchConfig,
    layers: Seq<Layer>,
    dir: Seq<char>,
    entries: Seq<DirEntry>,
)
    requires
        runs::distinct_names(entries),
    ensures
        runs::are_entries(path_of(), kept_dirs(config, layers, dir, entries), dir),
        forall|i: int|
            0 <= i < kept_dirs(config, layers, dir, entries).len() ==> is_for_entry(
                #[trigger] kept_dirs(config, layers, dir, entries)[i],
                dir,
                entries,
            ),
    decreases entries.len(),
{
    let jobs = kept_dirs(config, layers, dir, entries);
    if entries.len() > 0 {
        let fewer = entries.drop_last();
        let before = kept_dirs(config, layers, dir, fewer);
        let n = entries.len() - 1;
        let e = entries[n];
        assert(runs::distinct_names(fewer)) by {
            assert forall|i: int| 0 <= i < fewer.len() implies paths::is_name(
                (#[trigger] fewer[i]).name@,
            ) by {
                assert(fewer[i] == entries[i]);
            }
            assert forall|i: int, j: int| 0 <= i < j < fewer.len() implies (
            #[trigger] fewer[i]).name@ != (#[trigger] fewer[j]).name@ by {
                assert(fewer[i] == entries[i] && fewer[j] == entries[j]);
            }
        }
        lemma_kept_dirs(config, layers, dir, fewer);
        assert(paths::is_name(e.name@));
        assert forall|i: int| 0 <= i < jobs.len() implies is_for_entry(
            #[trigger] jobs[i],
            dir,
            entries,
        ) by {
            if i < before.len() {
                assert(jobs[i] == before[i]);
                assert(is_for_entry(before[i], dir, fewer));
                let k = choose|k: int|
                    0 <= k < fewer.len() && (#[trigger] fewer[k]).is_dir && !fewer[k].is_symlink
                        && before[i].path == paths::joined(dir, fewer[k].name@);
                assert(entries[k] == fewer[k]);
            } else {
                assert(entries[n].is_dir);
            }
        }
        assert forall|i: int| 0 <= i < jobs.len() implies paths::is_entry(
            dir,
            path_of()(#[trigger] jobs[i]),
        ) by {
            assert(is_for_entry(jobs[i], dir, entries));
            let k = choose|k: int|
                0 <= k < entries.len() && (#[trigger] entries[k]).is_dir && !entries[k].is_symlink
                    && jobs[i].path == paths::joined(dir, entries[k].name@);
            let name = entries[k].name@;
            assert(paths::is_name(name) && jobs[i].path == paths::joined(dir, name));
        }
        assert forall|i: int, j: int| 0 <= i < j < jobs.len() implies path_of()(#[trigger] jobs[i])
            != path_of()(#[trigger] jobs[j]) by {
            assert(jobs[i] == before[i]);
            if j < before.len() {
                assert(jobs[j] == before[j]);
                assert(path_of()(before[i]) != path_of()(before[j]));
            } else {
                assert(is_for_entry(before[i], dir, fewer));
                let k = choose|k: int|
                    0 <= k < fewer.len() && (#[trigger] fewer[k]).is_dir && !fewer[k].is_symlink
                        && before[i].path == paths::joined(dir, fewer[k].name@);
                assert(entries[k].name@ != entries[n].name@);
                paths::names_tell_entries_apart(dir, entries[k].name@, entries[n].name@);
            }
        }
    }
}

/// The files of a listing are entries of `dir`.
proof fn lemma_kept_files(
    config: SearchConfig,
    layers: Seq<Layer>,
    dir: Seq<char>,
    entries: Seq<DirEntry>,
    p: Seq<char>,
)
    requires
        runs::distinct_names(entries),
        kept_files(config, layers, dir, entries).contains(p),
    ensures
        paths::is_entry(dir, p),
    decreases entries.len(),
{
    let files = kept_files(config, layers, dir, entries);
    let i = choose|i: int| 0 <= i < files.len() && files[i] == p;
    if entries.len() > 0 {
        let fewer = entries.drop_last();
        let before = kept_files(config, layers, dir, fewer);
        if i < before.len() {
            assert(before[i] == p);
            assert forall|i: int| 0 <= i < fewer.len() implies paths::is_name(
                (#[trigger] fewer[i]).name@,
            ) by {
                assert(fewer[i] == entries[i]);
            }
            assert forall|i: int, j: int| 0 <= i < j < fewer.len() implies (
            #[trigger] fewer[i]).name@ != (#[trigger] fewer[j]).name@ by {
                assert(fewer[i] == entries[i] && fewer[j] == entries[j]);
            }
            lemma_kept_files(config, layers, dir, fewer, p);
        } else {
            assert(paths::is_name(entries[entries.len() - 1].name@));
            assert(p == paths::joined(dir, entries.last().name@));
        }
    }
}

/// Every row tells the file that it is of.
proof fn lemma_rows_are_named(config: SearchConfig, tree: Tree, files: Seq<Seq<char>>, i: int)
    requires
        0 <= i < rows_of(config, tree, files).len(),
    ensures
        files.contains(rows_of(config, tree, files)[i].path),
    decreases files.len(),
{
    let before = rows_of(config, tree, files.drop_last());
    let all = rows_of(config, tree, files);
    if i < before.len() {
        assert(all[i] == before[i]);
        lemma_rows_are_named(config, tree, files.drop_last(), i);
        let k = choose|k: int|
            0 <= k < files.drop_last().len() && files.drop_last()[k] == before[i].path;
        assert(files[k] == before[i].path);
    } else {
        let p = files.last();
        let found = found_at(config, tree)(p);
        assert(all[i] == found.rows[i - before.len()]);
        if !config.files_only {
            let (bytes, failed) = (tree.file)(p);
            let raws = content::raw_lines(content::readable(bytes, failed));
            let h = content::search_lines(config, raws);
            config.spec_rules().name_is_all_that_differs(p, p, h, found.io_error);
        }
        assert(all[i].path == p);
        assert(files[files.len() - 1] == p);
    }
}

/// A search that starts at a file does nothing else.
proof fn lemma_file_alone(config: SearchConfig, tree: Tree, root: Job, takes: Seq<Job>)
    requires
        runs::is_run(subjobs(config, tree), seq![root].to_multiset(), takes),
        (tree.place)(root.path) is File,
    ensures
        takes.len() <= 1,
{
    broadcast use vstd::multiset::group_multiset_axioms;
    broadcast use vstd::seq_lib::group_to_multiset_ensures;

    if takes.len() > 1 {
        let start = seq![root].to_multiset();
        assert(start.count(takes[0]) > 0);
        assert(seq![root].contains(takes[0]));
        assert(takes[0] == root);
        let none: Seq<Job> = seq![];
        assert(subjobs(config, tree)(root) =~= none);
        assert(none.to_multiset().len() == 0);
        let next = start.remove(root).add(none.to_multiset());
        let rest = takes.drop_first();
        assert(runs::is_run(subjobs(config, tree), next, rest));
        assert(rest.len() > 0);
        assert(next.contains(rest[0]));
        assert(start.len() == 1);
        assert(next.len() == 0);
    }
}

/// Two jobs of a search never report the same file.
proof fn lemma_one_reporter(
    config: SearchConfig,
    tree: Tree,
    root: Job,
    takes: Seq<Job>,
    p: Seq<char>,
    i: int,
    j: int,
)
    requires
        tree.wf(),
        runs::is_run(subjobs(config, tree), seq![root].to_multiset(), takes),
        0 <= i < takes.len(),
        0 <= j < takes.len(),
        files_of(config, tree, takes[i]).contains(p),
        files_of(config, tree, takes[j]).contains(p),
    ensures
        i == j,
{
    broadcast use vstd::seq_lib::group_to_multiset_ensures;

    let children = subjobs(config, tree);
    if (tree.place)(root.path) is File {
        lemma_file_alone(config, tree, root, takes);
    } else {
        let good = |job: Job| !((tree.place)(job.path) is File);
        assert forall|t: Job| #[trigger] seq![root].to_multiset().contains(t) implies good(t) by {
            assert(seq![root].contains(t));
        }
        assert forall|t: Job, k: int| good(t) && 0 <= k < children(t).len() implies good(
            #[trigger] children(t)[k],
        ) by {
            if let Place::Directory { entries, ignore_lines } = (tree.place)(t.path) {
                let layers = inside(config, t, ignore_lines);
                lemma_kept_dirs(config, layers, t.path, entries);
                let c = kept_dirs(config, layers, t.path, entries)[k];
                assert(is_for_entry(c, t.path, entries));
                let m = choose|m: int|
                    0 <= m < entries.len() && (#[trigger] entries[m]).is_dir
                        && !entries[m].is_symlink && c.path == paths::joined(
                        t.path,
                        entries[m].name@,
                    );
                assert(!((tree.place)(paths::joined(t.path, entries[m].name@)) is File));
            }
        }
        runs::what_is_passed_on_holds(children, seq![root].to_multiset(), takes, good);
        assert forall|t: Job|
            runs::are_entries(path_of(), #[trigger] children(t), path_of()(t)) by {
            if let Place::Directory { entries, ignore_lines } = (tree.place)(t.path) {
                lemma_kept_dirs(config, inside(config, t, ignore_lines), t.path, entries);
            }
        }
        let first = lemma_reporter(config, tree, takes[i], p);
        let second = lemma_reporter(config, tree, takes[j], p);
        runs::one_task_holds_a_path(children, path_of(), root, takes, i, first, j, second);
    }
}

/// A job that is not for a file reports entries of its directory.
proof fn lemma_reporter(config: SearchConfig, tree: Tree, job: Job, p: Seq<char>) -> (name: Seq<
    char,
>)
    requires
        tree.wf(),
        !((tree.place)(job.path) is File),
        files_of(config, tree, job).contains(p),
    ensures
        paths::is_name(name),
        p == paths::joined(job.path, name),
{
    let place = (tree.place)(job.path);
    if let Place::Directory { entries, ignore_lines } = place {
        lemma_kept_files(config, inside(config, job, ignore_lines), job.path, entries, p);
    }
    choose|name: Seq<char>| paths::is_name(name) && p == #[trigger] paths::joined(job.path, name)
}

/// The rows of one file in a stream are those that its job reports.
proof fn lemma_file_in_stream(
    config: SearchConfig,
    tree: Tree,
    root: Job,
    workers: nat,
    turns: Seq<Turn<Job>>,
    stream: Seq<(int, Row)>,
    p: Seq<char>,
    k: int,
)
    requires
        tree.wf(),
        is_search(config, tree, root, workers, turns, stream),
        0 <= k < runs::takes_of(turns).len(),
        forall|j: int|
            0 <= j < runs::takes_of(turns).len() && files_of(
                config,
                tree,
                #[trigger] runs::takes_of(turns)[j],
            ).contains(p) ==> j == k,
    ensures
        runs::output(stream).filter(|r: Row| r.path == p) == job_rows(config, tree)(
            runs::takes_of(turns)[k],
        ).filter(|r: Row| r.path == p),
{
    let takes = runs::takes_of(turns);
    let of_file = |r: Row| r.path == p;
    let parts = takes.map_values(job_rows(config, tree));
    assert forall|j: int, i: int|
        0 <= j < parts.len() && j != k && 0 <= i < parts[j].len() implies !of_file(
        #[trigger] parts[j][i],
    ) by {
        let files = files_of(config, tree, takes[j]);
        lemma_rows_are_named(config, tree, files, i);
        assert(!files_of(config, tree, takes[j]).contains(p));
    }
    runs::streams_keep_order(stream, parts, of_file, k);
}

/// However many workers search a tree, the rows of any one file come out in
/// the same order.
pub proof fn workers_keep_the_order_in_a_file(
    config: SearchConfig,
    tree: Tree,
    root: Job,
    workers: nat,
    turns: Seq<Turn<Job>>,
    stream: Seq<(int, Row)>,
    other_workers: nat,
    other_turns: Seq<Turn<Job>>,
    other_stream: Seq<(int, Row)>,
    p: Seq<char>,
)
    requires
        !config.quiet,
        tree.wf(),
        is_search(config, tree, root, workers, turns, stream),
        is_search(config, tree, root, other_workers, other_turns, other_stream),
    ensures
        runs::output(stream).filter(|r: Row| r.path == p) == runs::output(other_stream).filter(
            |r: Row| r.path == p,
        ),
{
    broadcast use vstd::multiset::group_multiset_axioms;
    broadcast use vstd::seq_lib::group_to_multiset_ensures;

    let (a, b) = (runs::takes_of(turns), runs::takes_of(other_turns));
    lemma_search_is_run(config, tree, root, workers, turns, stream);
    lemma_search_is_run(config, tree, root, other_workers, other_turns, other_stream);
    let start = seq![root].to_multiset();
    runs::runs_take_the_same_tasks(subjobs(config, tree), start, a, b);
    assert(a.len() > 0) by {
        if a.len() == 0 {
            assert(seq![root].contains(seq![root][0]));
            assert(start.count(root) > 0);
        }
    }
    let k: int = if exists|k: int|
        0 <= k < a.len() && files_of(config, tree, #[trigger] a[k]).contains(p) {
        choose|k: int| 0 <= k < a.len() && files_of(config, tree, #[trigger] a[k]).contains(p)
    } else {
        0
    };
    let t = a[k];
    assert(a.contains(t));
    assert(b.to_multiset().count(t) > 0);
    assert(b.contains(t));
    let m = choose|m: int| 0 <= m < b.len() && b[m] == t;
    assert forall|j: int|
        0 <= j < a.len() && files_of(config, tree, #[trigger] a[j]).contains(p) implies j == k by {
        lemma_one_reporter(config, tree, root, a, p, j, k);
    }
    assert forall|j: int|
        0 <= j < b.len() && files_of(config, tree, #[trigger] b[j]).contains(p) implies j == m by {
        let u = b[j];
        assert(b.contains(u));
        assert(a.to_multiset().count(u) > 0);
        assert(a.contains(u));
        let i = choose|i: int| 0 <= i < a.len() && a[i] == u;
        assert(files_of(config, tree, a[i]).contains(p));
        lemma_one_reporter(config, tree, root, b, p, j, m);
    }
    lemma_file_in_stream(config, tree, root, workers, turns, stream, p, k);
    lemma_file_in_stream(config, tree, root, other_workers, other_turns, other_stream, p, m);
}

} // verus!
