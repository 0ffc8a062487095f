//! Whole searches: what holds of them however many workers there are.

use crate::arfind::scan;
use crate::arfind::scan::{Facts, Found, SearchConfig, Task};
use crate::ignore_files;
use crate::ignore_files::Layer;
use crate::paths::DirEntry;
use crate::runs;
use crate::runs::Turn;
use vstd::prelude::*;

verus! {

/// What is found at the path of a directory.
pub ghost enum Place {
    /// It cannot be listed.
    Unlisted,
    /// Its entries, with what there is to know of each of them, and the lines
    /// of its ignore files.
    Directory {
        entries: Seq<DirEntry>,
        facts: Seq<Facts>,
        ignore_lines: Seq<Seq<Seq<char>>>,
    },
}

/// A file tree as a search sees it.
pub ghost struct Tree {
    pub place: spec_fn(Seq<char>) -> Place,
}

/// The task of walking a directory, by its path, the ignore layers that come
/// down to it and its depth below the root.
pub ghost struct Job {
    pub path: Seq<char>,
    pub layers: Seq<Layer>,
    pub depth: int,
}

/// The layers that apply inside the directory of a job.
pub open spec fn inside(config: SearchConfig, job: Job, ignore_lines: Seq<Seq<Seq<char>>>) -> Seq<
    Layer,
> {
    ignore_files::layers_inside(job.layers, config.respect_gitignore, job.path, ignore_lines)
}

/// The jobs for the given paths.
pub open spec fn jobs_at(layers: Seq<Layer>, depth: int, paths: Seq<Seq<char>>) -> Seq<Job> {
    Seq::new(paths.len(), |i: int| Job { path: paths[i], layers, depth })
}

/// The jobs that come out of a job.
pub open spec fn subjobs(config: SearchConfig, tree: Tree) -> spec_fn(Job) -> Seq<Job> {
    |job: Job|
        match (tree.place)(job.path) {
            Place::Directory { entries, ignore_lines, .. } => {
                let layers = inside(config, job, ignore_lines);
                jobs_at(
                    layers,
                    job.depth + 1,
                    config.entered(layers, job.path, job.depth, entries),
                )
            },
            Place::Unlisted => seq![],
        }
}

/// What a job finds.
pub open spec fn found_by(config: SearchConfig, tree: Tree) -> spec_fn(Job) -> Seq<Found> {
    |job: Job|
        match (tree.place)(job.path) {
            Place::Directory { entries, facts, ignore_lines } => config.found(
                inside(config, job, ignore_lines),
                job.path,
                entries,
                facts,
            ),
            Place::Unlisted => seq![],
        }
}

/// How many files a job looks at.
pub open spec fn seen_by(config: SearchConfig, tree: Tree) -> spec_fn(Job) -> int {
    |job: Job|
        match (tree.place)(job.path) {
            Place::Directory { entries, ignore_lines, .. } => config.files_seen(
                inside(config, job, ignore_lines),
                job.path,
                entries,
            ),
            Place::Unlisted => 0,
        }
}

/// The tasks that walking a directory brings are the jobs that come out of its
/// job.
pub proof fn tasks_are_the_jobs(
    tasks: Seq<Task>,
    layers: Seq<Layer>,
    depth: int,
    paths: Seq<Seq<char>>,
)
    requires
        scan::tasks_for(tasks, layers, depth, paths),
    ensures
        jobs_at(layers, depth, paths) == tasks.map_values(
            |t: Task|
                Job {
                    path: t.path@,
                    layers: ignore_files::layers((*t.ignore_stack)@),
                    depth: t.depth as int,
                },
        ),
{
    let jobs = tasks.map_values(
        |t: Task|
            Job {
                path: t.path@,
                layers: ignore_files::layers((*t.ignore_stack)@),
                depth: t.depth as int,
            },
    );
    assert forall|i: int| 0 <= i < tasks.len() implies #[trigger] jobs_at(layers, depth, paths)[i]
        == jobs[i] by {
        assert(tasks[i].path@ == paths[i]);
    }
    assert(jobs_at(layers, depth, paths) =~= jobs);
}

/// A whole search below `root` with so many workers: their turns, and the
/// stream of what is found, each marked with the number of the job that it came
/// from.
pub open spec fn is_search(
    config: SearchConfig,
    tree: Tree,
    root: Job,
    workers: nat,
    turns: Seq<Turn<Job>>,
    stream: Seq<(int, Found)>,
) -> bool {
    &&& runs::is_schedule(subjobs(config, tree), runs::at_start(root, workers), turns)
    &&& runs::interleaves(stream, runs::takes_of(turns).map_values(found_by(config, tree)))
}

proof fn lemma_search_is_run(
    config: SearchConfig,
    tree: Tree,
    root: Job,
    workers: nat,
    turns: Seq<Turn<Job>>,
    stream: Seq<(int, Found)>,
)
    requires
        is_search(config, tree, root, workers, turns, stream),
    ensures
        runs::is_run(subjobs(config, tree), seq![root].to_multiset(), runs::takes_of(turns)),
{
    runs::whole_schedules_are_runs(subjobs(config, tree), root, workers, turns);
}

/// However many workers search a tree, and in whatever order they take its
/// directories, the same files and directories are found, each as often, and
/// as many of both are looked at.
pub proof fn workers_find_the_same(
    config: SearchConfig,
    tree: Tree,
    root: Job,
    workers: nat,
    turns: Seq<Turn<Job>>,
    stream: Seq<(int, Found)>,
    other_workers: nat,
    other_turns: Seq<Turn<Job>>,
    other_stream: Seq<(int, Found)>,
)
    requires
        is_search(config, tree, root, workers, turns, stream),
        is_search(config, tree, root, other_workers, other_turns, other_stream),
    ensures
        runs::output(stream).to_multiset() == runs::output(other_stream).to_multiset(),
        runs::takes_of(turns).len() == runs::takes_of(other_turns).len(),
        runs::amount(runs::takes_of(turns), seen_by(config, tree)) == runs::amount(
            runs::takes_of(other_turns),
            seen_by(config, tree),
        ),
{
    broadcast use vstd::seq_lib::group_to_multiset_ensures;

    let (a, b) = (runs::takes_of(turns), runs::takes_of(other_turns));
    let found = found_by(config, tree);
    let (xs, ys) = (runs::output(stream), runs::output(other_stream));
    lemma_search_is_run(config, tree, root, workers, turns, stream);
    lemma_search_is_run(config, tree, root, other_workers, other_turns, other_stream);
    runs::runs_take_the_same_tasks(subjobs(config, tree), seq![root].to_multiset(), a, b);
    assert(a.to_multiset().len() == a.len() && b.to_multiset().len() == b.len());
    assert forall|f: Found| #[trigger] xs.to_multiset().count(f) == ys.to_multiset().count(f) by {
        let times = runs::times(f);
        runs::streams_lose_nothing(stream, a.map_values(found), f);
        runs::streams_lose_nothing(other_stream, b.map_values(found), f);
        runs::amounts_of_images(a, found, times);
        runs::amounts_of_images(b, found, times);
        runs::amounts_agree(a, b, |j: Job| times(found(j)));
    }
    assert(xs.to_multiset() =~= ys.to_multiset());
    runs::amounts_agree(a, b, seen_by(config, tree));
}

} // verus!
