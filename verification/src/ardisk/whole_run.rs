//! Whole scans: what holds of them however many workers there are.

use crate::ardisk::rollup;
use crate::ardisk::rollup_laws;
use crate::ardisk::scan;
use crate::ardisk::scan::{Metadata, ScanConfig, Task, Weighed};
use crate::ardisk::size_map;
use crate::ardisk::size_map::SizeMap;
use crate::ignore_files;
use crate::ignore_files::Layer;
use crate::paths;
use crate::paths::DirEntry;
use crate::runs;
use crate::runs::{Job, Turn};
use vstd::prelude::*;

verus! {

/// What is found at the path of a directory.
pub ghost enum Place {
    /// It cannot be listed.
    Unlisted,
    /// Its entries, with what could be had of each of them and of the directory
    /// itself, and the lines of its ignore files.
    Directory {
        entries: Seq<DirEntry>,
        metadata: Seq<Option<Metadata>>,
        own: Option<Metadata>,
        ignore_lines: Seq<Seq<Seq<char>>>,
    },
}

/// A file tree as a scan sees it.
pub ghost struct Tree {
    pub place: spec_fn(Seq<char>) -> Place,
}

impl Tree {
    /// The entries of a directory have names, each another one.
    pub open spec fn wf(self) -> bool {
        forall|dir: Seq<char>|
            (#[trigger] (self.place)(dir)) matches Place::Directory { entries, .. }
                ==> runs::distinct_names(entries)
    }

    /// A directory that can be listed.
    pub open spec fn lists(self, job: Job) -> bool {
        (self.place)(job.path) is Directory
    }
}

/// The layers that apply inside the directory of a job.
pub open spec fn inside(config: ScanConfig, job: Job, ignore_lines: Seq<Seq<Seq<char>>>) -> Seq<
    Layer,
> {
    ignore_files::layers_inside(job.layers, config.respect_gitignore, job.path, ignore_lines)
}

/// The jobs for the entries at the given places.
pub open spec fn jobs_at(
    layers: Seq<Layer>,
    dir: Seq<char>,
    entries: Seq<DirEntry>,
    places: Seq<int>,
) -> Seq<Job> {
    Seq::new(
        places.len(),
        |i: int| Job { path: paths::joined(dir, entries[places[i]].name@), layers },
    )
}

/// The jobs that come out of a job.
pub open spec fn subjobs(config: ScanConfig, tree: Tree) -> spec_fn(Job) -> Seq<Job> {
    |job: Job|
        match (tree.place)(job.path) {
            Place::Directory { entries, ignore_lines, .. } => {
                let layers = inside(config, job, ignore_lines);
                jobs_at(layers, job.path, entries, config.entered(layers, job.path, entries))
            },
            Place::Unlisted => seq![],
        }
}

/// The files that a job puts on the scales.
pub open spec fn files_of(config: ScanConfig, tree: Tree) -> spec_fn(Job) -> Seq<Weighed> {
    |job: Job|
        match (tree.place)(job.path) {
            Place::Directory { entries, metadata, ignore_lines, .. } => {
                let layers = inside(config, job, ignore_lines);
                let places = config.counted(layers, job.path, entries);
                scan::all_weighed(scan::picked(metadata, places), config.apparent_size)
            },
            Place::Unlisted => seq![],
        }
}

/// What the directory of a job weighs itself.
pub open spec fn own_of(config: ScanConfig, tree: Tree) -> spec_fn(Job) -> int {
    |job: Job|
        match (tree.place)(job.path) {
            Place::Directory { own, .. } => scan::own_weight(own, config.apparent_size),
            Place::Unlisted => 0,
        }
}

/// The tasks that scanning a directory brings are the jobs that come out of its
/// job.
pub proof fn tasks_are_the_jobs(
    tasks: Seq<Task>,
    layers: Seq<Layer>,
    dir: Seq<char>,
    entries: Seq<DirEntry>,
    places: Seq<int>,
)
    requires
        scan::tasks_for(tasks, layers, dir, entries, places),
    ensures
        jobs_at(layers, dir, entries, places) == tasks.map_values(
            |t: Task| Job { path: t.path@, layers: ignore_files::layers((*t.ignore_stack)@) },
        ),
{
    let jobs = tasks.map_values(
        |t: Task| Job { path: t.path@, layers: ignore_files::layers((*t.ignore_stack)@) },
    );
    assert forall|i: int| 0 <= i < tasks.len() implies #[trigger] jobs_at(
        layers,
        dir,
        entries,
        places,
    )[i] == jobs[i] by {
        assert(tasks[i].path@ == paths::joined(dir, entries[places[i]].name@));
    }
    assert(jobs_at(layers, dir, entries, places) =~= jobs);
}

/// What directory `k` is credited with, where the files of all directories are
/// put on the scales in the order of the stream: a file that came up before,
/// in whatever directory, adds nothing.
pub open spec fn credited(stream: Seq<(int, Weighed)>, k: int, seen: Set<u128>) -> int
    decreases stream.len(),
{
    if stream.len() == 0 {
        0
    } else {
        let before = stream.drop_last();
        credited(before, k, seen) + if stream.last().0 == k {
            scan::adds(stream.last().1, scan::seen_after(runs::output(before), seen))
        } else {
            0
        }
    }
}

/// Files that are all of directory `k`.
pub open spec fn tagged(files: Seq<Weighed>, k: int) -> Seq<(int, Weighed)> {
    Seq::new(files.len(), |i: int| (k, files[i]))
}

/// Where the files of a directory are put on the scales one right after the
/// other, it is credited with what they weigh together, given the keys seen
/// before.
pub proof fn a_directory_at_once(
    stream: Seq<(int, Weighed)>,
    files: Seq<Weighed>,
    k: int,
    j: int,
    seen: Set<u128>,
)
    ensures
        ({
            let known = scan::seen_after(runs::output(stream), seen);
            let all = stream + tagged(files, k);
            &&& credited(all, j, seen) == credited(stream, j, seen) + if j == k {
                scan::content(files, known)
            } else {
                0
            }
            &&& scan::seen_after(runs::output(all), seen) == scan::seen_after(files, known)
        }),
    decreases files.len(),
{
    let all = stream + tagged(files, k);
    if files.len() == 0 {
        assert(all =~= stream);
    } else {
        let fewer = files.drop_last();
        a_directory_at_once(stream, fewer, k, j, seen);
        let before = stream + tagged(fewer, k);
        assert(all.drop_last() =~= before);
        assert(runs::output(all).drop_last() =~= runs::output(before));
        assert(runs::output(all).last() == files.last());
    }
}

/// The credits of the first `n` directories together.
pub open spec fn credits(stream: Seq<(int, Weighed)>, n: int, seen: Set<u128>) -> int
    decreases n,
{
    if n <= 0 {
        0
    } else {
        credits(stream, n - 1, seen) + credited(stream, n - 1, seen)
    }
}

/// One more file adds to the credit of its own directory alone.
proof fn lemma_one_more_file(stream: Seq<(int, Weighed)>, n: int, seen: Set<u128>)
    requires
        stream.len() > 0,
        n >= 0,
        stream.last().0 >= 0,
    ensures
        credits(stream, n, seen) == credits(stream.drop_last(), n, seen) + if stream.last().0 < n {
            scan::adds(stream.last().1, scan::seen_after(runs::output(stream.drop_last()), seen))
        } else {
            0
        },
    decreases n,
{
    if n > 0 {
        lemma_one_more_file(stream, n - 1, seen);
    }
}

proof fn lemma_no_files(n: int, seen: Set<u128>)
    ensures
        credits(Seq::empty(), n, seen) == 0,
    decreases n,
{
    if n > 0 {
        lemma_no_files(n - 1, seen);
    }
}

/// The credits of all directories come to what all files weigh together, each
/// counted once however many names it has.
pub proof fn credits_add_up(stream: Seq<(int, Weighed)>, n: int, seen: Set<u128>)
    requires
        n >= 0,
        forall|i: int| 0 <= i < stream.len() ==> 0 <= (#[trigger] stream[i]).0 < n,
    ensures
        credits(stream, n, seen) == scan::content(runs::output(stream), seen),
    decreases stream.len(),
{
    if stream.len() == 0 {
        assert(stream =~= Seq::empty());
        lemma_no_files(n, seen);
    } else {
        let before = stream.drop_last();
        assert forall|i: int| 0 <= i < before.len() implies 0 <= (#[trigger] before[i]).0 < n by {
            assert(before[i] == stream[i]);
        }
        credits_add_up(before, n, seen);
        assert(0 <= stream[stream.len() - 1].0 < n);
        lemma_one_more_file(stream, n, seen);
        assert(runs::output(stream).drop_last() =~= runs::output(before));
        assert(runs::output(stream).last() == stream.last().1);
    }
}

/// What the files with the key `k` add, among others.
pub open spec fn added_by(files: Seq<Weighed>, k: u128, seen: Set<u128>) -> int
    decreases files.len(),
{
    if files.len() == 0 {
        0
    } else {
        let before = files.drop_last();
        added_by(before, k, seen) + if files.last().key == Some(k) {
            scan::adds(files.last(), scan::seen_after(before, seen))
        } else {
            0
        }
    }
}

/// A file with several names adds its size once, under whichever name it comes
/// up first.
pub proof fn a_linked_file_counts_once(files: Seq<Weighed>, k: u128, i: int)
    requires
        scan::consistent(files),
        0 <= i < files.len(),
        files[i].key == Some(k),
    ensures
        added_by(files, k, Set::empty()) == files[i].size,
    decreases files.len(),
{
    let before = files.drop_last();
    let none = Set::<u128>::empty();
    assert(scan::consistent(before)) by {
        assert forall|a: int, b: int|
            0 <= a < before.len() && 0 <= b < before.len() && (#[trigger] before[a]).key is Some
                && before[a].key == (#[trigger] before[b]).key implies before[a].size
            == before[b].size by {
            assert(before[a] == files[a] && before[b] == files[b]);
        }
    }
    if exists|j: int| 0 <= j < before.len() && (#[trigger] before[j]).key == Some(k) {
        let j = choose|j: int| 0 <= j < before.len() && (#[trigger] before[j]).key == Some(k);
        a_linked_file_counts_once(before, k, j);
        assert(files[j].size == files[i].size) by {
            assert(files[j] == before[j]);
        }
        lemma_known(before, k, j);
    } else {
        if i < before.len() {
            assert(before[i] == files[i]);
        }
        lemma_unknown(before, k);
    }
}

/// The key of a file that came up is known.
proof fn lemma_known(files: Seq<Weighed>, k: u128, j: int)
    requires
        0 <= j < files.len(),
        files[j].key == Some(k),
    ensures
        scan::seen_after(files, Set::empty()).contains(k),
    decreases files.len(),
{
    if j < files.len() - 1 {
        assert(files.drop_last()[j] == files[j]);
        lemma_known(files.drop_last(), k, j);
    }
}

/// The key of a file that never came up is not known, and has added nothing.
proof fn lemma_unknown(files: Seq<Weighed>, k: u128)
    requires
        forall|j: int| 0 <= j < files.len() ==> (#[trigger] files[j]).key != Some(k),
    ensures
        !scan::seen_after(files, Set::empty()).contains(k),
        added_by(files, k, Set::empty()) == 0,
    decreases files.len(),
{
    if files.len() > 0 {
        let before = files.drop_last();
        assert forall|j: int| 0 <= j < before.len() implies (#[trigger] before[j]).key
            != Some(k) by {
            assert(before[j] == files[j]);
        }
        lemma_unknown(before, k);
        assert(files[files.len() - 1].key != Some(k));
    }
}

/// A whole scan from `root` with so many workers: their turns, and the stream
/// of files in the order in which they are put on the scales, each marked with
/// the number of the job that it belongs to.
pub open spec fn is_scan(
    config: ScanConfig,
    tree: Tree,
    root: Job,
    workers: nat,
    turns: Seq<Turn<Job>>,
    stream: Seq<(int, Weighed)>,
) -> bool {
    &&& runs::is_schedule(subjobs(config, tree), runs::at_start(root, workers), turns)
    &&& runs::interleaves(stream, runs::takes_of(turns).map_values(files_of(config, tree)))
}

/// The key of a directory in the maps of sizes.
pub open spec fn key_of() -> spec_fn(Job) -> Seq<char> {
    |job: Job| paths::tidied(job.path)
}

/// The maps that a scan fills: every directory that could be listed is in both,
/// with the credit for its files in the one, and with that and its own weight
/// in the other.
pub open spec fn are_sizes(
    config: ScanConfig,
    tree: Tree,
    jobs: Seq<Job>,
    stream: Seq<(int, Weighed)>,
    raw: Map<Seq<char>, u64>,
    content: Map<Seq<char>, u64>,
) -> bool {
    &&& raw.dom() == content.dom()
    &&& forall|q: Seq<char>| #[trigger]
        content.contains_key(q) ==> exists|k: int|
            0 <= k < jobs.len() && tree.lists(#[trigger] jobs[k]) && key_of()(jobs[k]) == q
    &&& forall|k: int|
        0 <= k < jobs.len() && tree.lists(#[trigger] jobs[k]) ==> {
            let q = key_of()(jobs[k]);
            let credit = credited(stream, k, Set::empty());
            &&& content.contains_key(q) && content[q] == credit
            &&& raw[q] == credit + own_of(config, tree)(jobs[k])
        }
}

proof fn lemma_scan_is_run(
    config: ScanConfig,
    tree: Tree,
    root: Job,
    workers: nat,
    turns: Seq<Turn<Job>>,
    stream: Seq<(int, Weighed)>,
)
    requires
        is_scan(config, tree, root, workers, turns, stream),
    ensures
        runs::is_run(subjobs(config, tree), seq![root].to_multiset(), runs::takes_of(turns)),
{
    runs::whole_schedules_are_runs(subjobs(config, tree), root, workers, turns);
}

/// The same files come up in any two scans.
proof fn lemma_same_files(
    config: ScanConfig,
    tree: Tree,
    root: Job,
    workers: nat,
    turns: Seq<Turn<Job>>,
    stream: Seq<(int, Weighed)>,
    other_workers: nat,
    other_turns: Seq<Turn<Job>>,
    other_stream: Seq<(int, Weighed)>,
)
    requires
        is_scan(config, tree, root, workers, turns, stream),
        is_scan(config, tree, root, other_workers, other_turns, other_stream),
    ensures
        runs::takes_of(turns).to_multiset() == runs::takes_of(other_turns).to_multiset(),
        runs::output(stream).to_multiset() == runs::output(other_stream).to_multiset(),
{
    let (a, b) = (runs::takes_of(turns), runs::takes_of(other_turns));
    let files = files_of(config, tree);
    let (xs, ys) = (runs::output(stream), runs::output(other_stream));
    lemma_scan_is_run(config, tree, root, workers, turns, stream);
    lemma_scan_is_run(config, tree, root, other_workers, other_turns, other_stream);
    runs::runs_take_the_same_tasks(subjobs(config, tree), seq![root].to_multiset(), a, b);
    assert forall|f: Weighed| #[trigger] xs.to_multiset().count(f) == ys.to_multiset().count(f) by {
        let times = runs::times(f);
        runs::streams_lose_nothing(stream, a.map_values(files), f);
        runs::streams_lose_nothing(other_stream, b.map_values(files), f);
        runs::amounts_of_images(a, files, times);
        runs::amounts_of_images(b, files, times);
        runs::amounts_agree(a, b, |j: Job| times(files(j)));
    }
    assert(xs.to_multiset() =~= ys.to_multiset());
}

/// The places of the directories that are entered follow one another, and are
/// places of the listing.
proof fn lemma_entered(
    config: ScanConfig,
    layers: Seq<Layer>,
    dir: Seq<char>,
    entries: Seq<DirEntry>,
)
    ensures
        ({
            let places = config.entered(layers, dir, entries);
            &&& forall|i: int| 0 <= i < places.len() ==> 0 <= #[trigger] places[i] < entries.len()
            &&& forall|i: int, j: int|
                0 <= i < j < places.len() ==> #[trigger] places[i] < #[trigger] places[j]
        }),
    decreases entries.len(),
{
    if entries.len() > 0 {
        let fewer = entries.drop_last();
        lemma_entered(config, layers, dir, fewer);
        let before = config.entered(layers, dir, fewer);
        let places = config.entered(layers, dir, entries);
        assert forall|i: int| 0 <= i < places.len() implies 0 <= #[trigger] places[i]
            < entries.len() by {
            if i < before.len() {
                assert(places[i] == before[i]);
            }
        }
        assert forall|i: int, j: int| 0 <= i < j < places.len() implies #[trigger] places[i]
            < #[trigger] places[j] by {
            assert(places[i] == before[i]);
            if j < before.len() {
                assert(places[j] == before[j]);
            }
        }
    }
}

/// The jobs that come out of a job are entries of its directory.
proof fn lemma_entries(config: ScanConfig, tree: Tree, job: Job)
    requires
        tree.wf(),
    ensures
        runs::are_entries(key_of(), subjobs(config, tree)(job), key_of()(job)),
{
    let jobs = subjobs(config, tree)(job);
    let dir = key_of()(job);
    if let Place::Directory { entries, ignore_lines, .. } = (tree.place)(job.path) {
        let layers = inside(config, job, ignore_lines);
        let places = config.entered(layers, job.path, entries);
        lemma_entered(config, layers, job.path, entries);
        assert forall|i: int| 0 <= i < jobs.len() implies paths::is_entry(
            dir,
            key_of()(#[trigger] jobs[i]),
        ) by {
            let name = entries[places[i]].name@;
            assert(0 <= places[i] < entries.len());
            paths::entry_of_directory(job.path, name, seq![]);
            assert(paths::is_name(name) && key_of()(jobs[i]) == paths::joined(dir, name));
        }
        assert forall|i: int, j: int| 0 <= i < j < jobs.len() implies key_of()(#[trigger] jobs[i])
            != key_of()(#[trigger] jobs[j]) by {
            assert(places[i] < places[j]);
            assert(0 <= places[i] < entries.len() && 0 <= places[j] < entries.len());
            let (x, y) = (entries[places[i]].name@, entries[places[j]].name@);
            assert(x != y);
            paths::entry_of_directory(job.path, x, seq![]);
            paths::entry_of_directory(job.path, y, seq![]);
            paths::names_tell_entries_apart(dir, x, y);
        }
    }
}

/// No two jobs of a scan have the same key.
proof fn lemma_one_job(
    config: ScanConfig,
    tree: Tree,
    root: Job,
    jobs: Seq<Job>,
    i: int,
    j: int,
)
    requires
        tree.wf(),
        runs::is_run(subjobs(config, tree), seq![root].to_multiset(), jobs),
        0 <= i < jobs.len(),
        0 <= j < jobs.len(),
        key_of()(jobs[i]) == key_of()(jobs[j]),
    ensures
        i == j,
{
    let children = subjobs(config, tree);
    assert forall|t: Job| runs::are_entries(key_of(), #[trigger] children(t), key_of()(t)) by {
        lemma_entries(config, tree, t);
    }
    runs::no_path_is_taken_twice(children, key_of(), root, jobs, key_of()(jobs[i]));
    runs::one_place_for_a_path(key_of(), jobs, i, j);
}

/// What a job whose directory cannot be listed is credited with.
proof fn lemma_unlisted(
    config: ScanConfig,
    tree: Tree,
    jobs: Seq<Job>,
    stream: Seq<(int, Weighed)>,
    k: int,
)
    requires
        runs::interleaves(stream, jobs.map_values(files_of(config, tree))),
        0 <= k < jobs.len(),
        !tree.lists(jobs[k]),
    ensures
        credited(stream, k, Set::empty()) == 0,
{
    let parts = jobs.map_values(files_of(config, tree));
    assert(runs::part_of(stream, k) == parts[k]);
    assert(parts[k].len() == 0);
    lemma_no_part(stream, k);
}

proof fn lemma_no_part(stream: Seq<(int, Weighed)>, k: int)
    requires
        runs::part_of(stream, k).len() == 0,
    ensures
        credited(stream, k, Set::empty()) == 0,
    decreases stream.len(),
{
    if stream.len() > 0 {
        lemma_no_part(stream.drop_last(), k);
    }
}

/// The places, among the first `n`, of the directories that could be listed.
spec fn listed(tree: Tree, jobs: Seq<Job>, n: int) -> Seq<int>
    decreases n,
{
    if n <= 0 {
        seq![]
    } else if tree.lists(jobs[n - 1]) {
        listed(tree, jobs, n - 1).push(n - 1)
    } else {
        listed(tree, jobs, n - 1)
    }
}

proof fn lemma_listed(tree: Tree, jobs: Seq<Job>, n: int)
    requires
        0 <= n <= jobs.len(),
    ensures
        forall|i: int|
            0 <= i < listed(tree, jobs, n).len() ==> 0 <= #[trigger] listed(tree, jobs, n)[i] < n
                && tree.lists(jobs[listed(tree, jobs, n)[i]]),
        forall|i: int, j: int|
            0 <= i < j < listed(tree, jobs, n).len() ==> #[trigger] listed(tree, jobs, n)[i]
                < #[trigger] listed(tree, jobs, n)[j],
        forall|k: int|
            0 <= k < n && tree.lists(#[trigger] jobs[k]) ==> listed(tree, jobs, n).contains(k),
    decreases n,
{
    if n > 0 {
        lemma_listed(tree, jobs, n - 1);
        let before = listed(tree, jobs, n - 1);
        let now = listed(tree, jobs, n);
        assert forall|k: int| 0 <= k < n && tree.lists(#[trigger] jobs[k]) implies now.contains(
            k,
        ) by {
            if k == n - 1 {
                assert(now[now.len() - 1] == k);
            } else {
                assert(before.contains(k));
                let i = before.index_of(k);
                assert(now[i] == k);
            }
        }
    }
}

/// The entry that a directory has in a map.
spec fn entry_in(map: Map<Seq<char>, u64>, jobs: Seq<Job>) -> spec_fn(int) -> (Seq<char>, u64) {
    |k: int| (key_of()(jobs[k]), map[key_of()(jobs[k])])
}

/// The directories that could be listed make up the map.
proof fn lemma_listed_map(
    config: ScanConfig,
    tree: Tree,
    root: Job,
    jobs: Seq<Job>,
    map: Map<Seq<char>, u64>,
)
    requires
        tree.wf(),
        runs::is_run(subjobs(config, tree), seq![root].to_multiset(), jobs),
        forall|q: Seq<char>| #[trigger]
            map.contains_key(q) ==> exists|k: int|
                0 <= k < jobs.len() && tree.lists(#[trigger] jobs[k]) && key_of()(jobs[k]) == q,
        forall|k: int|
            0 <= k < jobs.len() && tree.lists(#[trigger] jobs[k]) ==> map.contains_key(
                key_of()(jobs[k]),
            ),
    ensures
        size_map::lists_map(
            listed(tree, jobs, jobs.len() as int).map_values(entry_in(map, jobs)),
            map,
        ),
{
    let places = listed(tree, jobs, jobs.len() as int);
    let entries = places.map_values(entry_in(map, jobs));
    lemma_listed(tree, jobs, jobs.len() as int);
    assert forall|i: int, j: int|
        0 <= i < entries.len() && 0 <= j < entries.len() && (#[trigger] entries[i]).0 == (
        #[trigger] entries[j]).0 implies i == j by {
        lemma_one_job(config, tree, root, jobs, places[i], places[j]);
        if i < j {
            assert(places[i] < places[j]);
        } else if j < i {
            assert(places[j] < places[i]);
        }
    }
    assert forall|i: int| 0 <= i < entries.len() implies map.contains_key((#[trigger] entries[i]).0)
        && map[entries[i].0] == entries[i].1 by {
        assert(tree.lists(jobs[places[i]]));
    }
    assert forall|q: Seq<char>| #[trigger] map.contains_key(q) implies exists|i: int|
        0 <= i < entries.len() && (#[trigger] entries[i]).0 == q by {
        let k = choose|k: int|
            0 <= k < jobs.len() && tree.lists(#[trigger] jobs[k]) && key_of()(jobs[k]) == q;
        assert(places.contains(k));
        let i = places.index_of(k);
        assert(entries[i].0 == q);
    }
}

/// The sums of the two maps over the first `n` directories.
proof fn lemma_sums(
    config: ScanConfig,
    tree: Tree,
    jobs: Seq<Job>,
    stream: Seq<(int, Weighed)>,
    raw: Map<Seq<char>, u64>,
    content: Map<Seq<char>, u64>,
    n: int,
)
    requires
        runs::interleaves(stream, jobs.map_values(files_of(config, tree))),
        are_sizes(config, tree, jobs, stream, raw, content),
        0 <= n <= jobs.len(),
    ensures
        ({
            let places = listed(tree, jobs, n);
            let size = rollup_laws::size_in();
            &&& runs::amount(places.map_values(entry_in(content, jobs)), size) == credits(
                stream,
                n,
                Set::empty(),
            )
            &&& runs::amount(places.map_values(entry_in(raw, jobs)), size) == credits(
                stream,
                n,
                Set::empty(),
            ) + runs::amount(jobs.take(n), own_of(config, tree))
        }),
    decreases n,
{
    let size = rollup_laws::size_in();
    let places = listed(tree, jobs, n);
    let (cs, rs) = (
        places.map_values(entry_in(content, jobs)),
        places.map_values(entry_in(raw, jobs)),
    );
    if n > 0 {
        lemma_sums(config, tree, jobs, stream, raw, content, n - 1);
        assert(jobs.take(n).drop_last() =~= jobs.take(n - 1));
        assert(jobs.take(n).last() == jobs[n - 1]);
        let before = listed(tree, jobs, n - 1);
        if tree.lists(jobs[n - 1]) {
            assert(cs.drop_last() =~= before.map_values(entry_in(content, jobs)));
            assert(rs.drop_last() =~= before.map_values(entry_in(raw, jobs)));
            assert(cs.last() == entry_in(content, jobs)(n - 1));
            assert(rs.last() == entry_in(raw, jobs)(n - 1));
        } else {
            lemma_unlisted(config, tree, jobs, stream, n - 1);
        }
    }
}

/// What the maps of a scan come to: all files together, each counted once, and
/// for the one map the directories besides.
pub proof fn maps_hold_every_file_once(
    config: ScanConfig,
    tree: Tree,
    root: Job,
    workers: nat,
    turns: Seq<Turn<Job>>,
    stream: Seq<(int, Weighed)>,
    raw: SizeMap,
    content: SizeMap,
)
    requires
        tree.wf(),
        is_scan(config, tree, root, workers, turns, stream),
        raw.wf(),
        content.wf(),
        are_sizes(config, tree, runs::takes_of(turns), stream, raw@, content@),
    ensures
        rollup::sum_of(content.entries(), content.entries().len() as int) == scan::content(
            runs::output(stream),
            Set::empty(),
        ),
        rollup::sum_of(raw.entries(), raw.entries().len() as int) == scan::content(
            runs::output(stream),
            Set::empty(),
        ) + runs::amount(runs::takes_of(turns), own_of(config, tree)),
{
    let jobs = runs::takes_of(turns);
    let n = jobs.len() as int;
    let places = listed(tree, jobs, n);
    lemma_scan_is_run(config, tree, root, workers, turns, stream);
    raw.entries_list_the_map();
    content.entries_list_the_map();
    assert forall|q: Seq<char>| #[trigger] raw@.contains_key(q) implies content@.contains_key(
        q,
    ) by {
        assert(raw@.dom().contains(q));
    }
    assert forall|q: Seq<char>| #[trigger] content@.contains_key(q) implies raw@.contains_key(
        q,
    ) by {
        assert(content@.dom().contains(q));
    }
    lemma_listed_map(config, tree, root, jobs, raw@);
    lemma_listed_map(config, tree, root, jobs, content@);
    rollup_laws::order_of_sizes_is_free(
        raw.entries(),
        places.map_values(entry_in(raw@, jobs)),
        raw@,
    );
    rollup_laws::order_of_sizes_is_free(
        content.entries(),
        places.map_values(entry_in(content@, jobs)),
        content@,
    );
    lemma_sums(config, tree, jobs, stream, raw@, content@, n);
    assert(jobs.take(n) =~= jobs);
    credits_add_up(stream, n, Set::empty());
}

/// However many workers scan a tree, and in whatever order its files are put
/// on the scales, the sizes come to the same: for the files alone, and with the
/// directories.
pub proof fn workers_weigh_the_same(
    config: ScanConfig,
    tree: Tree,
    root: Job,
    workers: nat,
    turns: Seq<Turn<Job>>,
    stream: Seq<(int, Weighed)>,
    raw: SizeMap,
    content: SizeMap,
    other_workers: nat,
    other_turns: Seq<Turn<Job>>,
    other_stream: Seq<(int, Weighed)>,
    other_raw: SizeMap,
    other_content: SizeMap,
)
    requires
        tree.wf(),
        is_scan(config, tree, root, workers, turns, stream),
        is_scan(config, tree, root, other_workers, other_turns, other_stream),
        scan::consistent(runs::output(stream)),
        raw.wf(),
        content.wf(),
        other_raw.wf(),
        other_content.wf(),
        are_sizes(config, tree, runs::takes_of(turns), stream, raw@, content@),
        are_sizes(
            config,
            tree,
            runs::takes_of(other_turns),
            other_stream,
            other_raw@,
            other_content@,
        ),
    ensures
        rollup::sum_of(content.entries(), content.entries().len() as int) == rollup::sum_of(
            other_content.entries(),
            other_content.entries().len() as int,
        ),
        rollup::sum_of(raw.entries(), raw.entries().len() as int) == rollup::sum_of(
            other_raw.entries(),
            other_raw.entries().len() as int,
        ),
{
    maps_hold_every_file_once(config, tree, root, workers, turns, stream, raw, content);
    maps_hold_every_file_once(
        config,
        tree,
        root,
        other_workers,
        other_turns,
        other_stream,
        other_raw,
        other_content,
    );
    lemma_same_files(
        config,
        tree,
        root,
        workers,
        turns,
        stream,
        other_workers,
        other_turns,
        other_stream,
    );
    scan::order_makes_no_difference(
        runs::output(stream),
        runs::output(other_stream),
        Set::empty(),
    );
    runs::amounts_agree(
        runs::takes_of(turns),
        runs::takes_of(other_turns),
        own_of(config, tree),
    );
}

/// What a file weighs.
pub open spec fn size_of_file() -> spec_fn(Weighed) -> int {
    |f: Weighed| f.size
}

/// No file has more than one name.
pub open spec fn unlinked(files: Seq<Weighed>) -> bool {
    forall|i: int| 0 <= i < files.len() ==> (#[trigger] files[i]).key is None
}

/// Files with a single name add what they weigh, whatever came before.
proof fn lemma_plain_credit(stream: Seq<(int, Weighed)>, k: int, seen: Set<u128>)
    requires
        unlinked(runs::output(stream)),
    ensures
        credited(stream, k, seen) == runs::amount(runs::part_of(stream, k), size_of_file()),
    decreases stream.len(),
{
    if stream.len() > 0 {
        let before = stream.drop_last();
        let out = runs::output(stream);
        assert forall|i: int| 0 <= i < runs::output(before).len() implies (
        #[trigger] runs::output(before)[i]).key is None by {
            assert(runs::output(before)[i] == out[i]);
        }
        lemma_plain_credit(before, k, seen);
        assert(out[out.len() - 1] == stream.last().1);
        let part = runs::part_of(stream, k);
        if stream.last().0 == k {
            assert(part.drop_last() =~= runs::part_of(before, k));
        }
    }
}

/// Where no file has more than one name, a directory has the same sizes in two
/// scans.
proof fn lemma_same_sizes(
    config: ScanConfig,
    tree: Tree,
    jobs: Seq<Job>,
    stream: Seq<(int, Weighed)>,
    raw: Map<Seq<char>, u64>,
    content: Map<Seq<char>, u64>,
    other_jobs: Seq<Job>,
    other_stream: Seq<(int, Weighed)>,
    other_raw: Map<Seq<char>, u64>,
    other_content: Map<Seq<char>, u64>,
    q: Seq<char>,
)
    requires
        jobs.to_multiset() == other_jobs.to_multiset(),
        unlinked(runs::output(stream)),
        unlinked(runs::output(other_stream)),
        runs::interleaves(stream, jobs.map_values(files_of(config, tree))),
        runs::interleaves(other_stream, other_jobs.map_values(files_of(config, tree))),
        are_sizes(config, tree, jobs, stream, raw, content),
        are_sizes(config, tree, other_jobs, other_stream, other_raw, other_content),
        content.contains_key(q),
    ensures
        other_content.contains_key(q),
        content[q] == other_content[q],
        raw[q] == other_raw[q],
{
    broadcast use vstd::multiset::group_multiset_axioms;
    broadcast use vstd::seq_lib::group_to_multiset_ensures;

    let k = choose|k: int|
        0 <= k < jobs.len() && tree.lists(#[trigger] jobs[k]) && key_of()(jobs[k]) == q;
    let job = jobs[k];
    assert(jobs.contains(job));
    assert(other_jobs.to_multiset().count(job) > 0);
    assert(other_jobs.contains(job));
    let m = other_jobs.index_of(job);
    assert(other_jobs[m] == job);
    lemma_plain_credit(stream, k, Set::empty());
    lemma_plain_credit(other_stream, m, Set::empty());
    let parts = jobs.map_values(files_of(config, tree));
    let other_parts = other_jobs.map_values(files_of(config, tree));
    assert(runs::part_of(stream, k) == parts[k]);
    assert(runs::part_of(other_stream, m) == other_parts[m]);
    assert(parts[k] == other_parts[m]);
}

/// Where no file has more than one name, scans of a tree fill the same maps,
/// however many workers there are.
pub proof fn without_links_the_maps_are_the_same(
    config: ScanConfig,
    tree: Tree,
    root: Job,
    workers: nat,
    turns: Seq<Turn<Job>>,
    stream: Seq<(int, Weighed)>,
    raw: SizeMap,
    content: SizeMap,
    other_workers: nat,
    other_turns: Seq<Turn<Job>>,
    other_stream: Seq<(int, Weighed)>,
    other_raw: SizeMap,
    other_content: SizeMap,
)
    requires
        is_scan(config, tree, root, workers, turns, stream),
        is_scan(config, tree, root, other_workers, other_turns, other_stream),
        unlinked(runs::output(stream)),
        are_sizes(config, tree, runs::takes_of(turns), stream, raw@, content@),
        are_sizes(
            config,
            tree,
            runs::takes_of(other_turns),
            other_stream,
            other_raw@,
            other_content@,
        ),
    ensures
        raw@ == other_raw@,
        content@ == other_content@,
{
    broadcast use vstd::multiset::group_multiset_axioms;
    broadcast use vstd::seq_lib::group_to_multiset_ensures;

    let (a, b) = (runs::takes_of(turns), runs::takes_of(other_turns));
    let (xs, ys) = (runs::output(stream), runs::output(other_stream));
    lemma_same_files(
        config,
        tree,
        root,
        workers,
        turns,
        stream,
        other_workers,
        other_turns,
        other_stream,
    );
    assert forall|i: int| 0 <= i < ys.len() implies (#[trigger] ys[i]).key is None by {
        assert(ys.contains(ys[i]));
        assert(xs.to_multiset().count(ys[i]) > 0);
        assert(xs.contains(ys[i]));
        let j = xs.index_of(ys[i]);
        assert(xs[j].key is None);
    }
    let (c1, c2) = (content@, other_content@);
    let (r1, r2) = (raw@, other_raw@);
    assert forall|q: Seq<char>| #[trigger] c1.contains_key(q) implies c2.contains_key(q) && c1[q]
        == c2[q] && r1[q] == r2[q] by {
        lemma_same_sizes(config, tree, a, stream, r1, c1, b, other_stream, r2, c2, q);
    }
    assert forall|q: Seq<char>| #[trigger] c2.contains_key(q) implies c1.contains_key(q) by {
        lemma_same_sizes(config, tree, b, other_stream, r2, c2, a, stream, r1, c1, q);
    }
    assert(c1.dom() =~= c2.dom());
    assert(c1 =~= c2);
    assert forall|q: Seq<char>| #[trigger] r1.contains_key(q) implies r2.contains_key(q) && r1[q]
        == r2[q] by {
        assert(r1.dom().contains(q));
        assert(c1.contains_key(q));
        assert(r2.dom().contains(q));
    }
    assert(r1.dom() =~= r2.dom());
    assert(r1 =~= r2);
}

/// The directories of a scan lie under its root, each under one that could be
/// listed.
proof fn lemma_under_root(config: ScanConfig, tree: Tree, root: Job, jobs: Seq<Job>, k: int)
    requires
        tree.wf(),
        runs::is_run(subjobs(config, tree), seq![root].to_multiset(), jobs),
        0 <= k < jobs.len(),
    ensures
        ({
            let q = key_of()(jobs[k]);
            let base = key_of()(root);
            &&& paths::is_under(q, base)
            &&& q == base || exists|j: int|
                0 <= j < jobs.len() && tree.lists(#[trigger] jobs[j]) && paths::parent(q) == Some(
                    key_of()(jobs[j]),
                )
        }),
{
    broadcast use vstd::seq_lib::group_to_multiset_ensures;

    let children = subjobs(config, tree);
    let base = key_of()(root);
    let good = |job: Job| paths::is_under(job.path, base);
    paths::tidying_twice_is_once(root.path);
    paths::tidying_twice_is_once(jobs[k].path);
    assert forall|t: Job| #[trigger] seq![root].to_multiset().contains(t) implies good(t) by {
        assert(seq![root].contains(t));
    }
    assert forall|t: Job, i: int| good(t) && 0 <= i < children(t).len() implies good(
        #[trigger] children(t)[i],
    ) by {
        let _ = lemma_source(config, tree, t, i, base);
    }
    runs::what_is_passed_on_holds(children, seq![root].to_multiset(), jobs, good);
    assert(good(jobs[k]));
    runs::every_task_has_a_source(children, root, jobs, k);
    if jobs[k] != root {
        let j = choose|j: int|
            0 <= j < jobs.len() && children(#[trigger] jobs[j]).contains(jobs[k]);
        let i = children(jobs[j]).index_of(jobs[k]);
        let _ = lemma_source(config, tree, jobs[j], i, base);
        assert(tree.lists(jobs[j]));
    }
}

/// A job that comes out of another is for an entry of its directory.
proof fn lemma_source(config: ScanConfig, tree: Tree, job: Job, i: int, base: Seq<char>) -> (name:
    Seq<char>)
    requires
        tree.wf(),
        0 <= i < subjobs(config, tree)(job).len(),
    ensures
        ({
            let p = subjobs(config, tree)(job)[i].path;
            &&& tree.lists(job)
            &&& p == paths::joined(job.path, name)
            &&& paths::parent(paths::tidied(p)) == Some(paths::tidied(job.path))
            &&& paths::is_under(job.path, base) ==> paths::is_under(p, base)
        }),
{
    let p = subjobs(config, tree)(job)[i].path;
    paths::tidying_twice_is_once(p);
    match (tree.place)(job.path) {
        Place::Directory { entries, ignore_lines, .. } => {
            let layers = inside(config, job, ignore_lines);
            let places = config.entered(layers, job.path, entries);
            lemma_entered(config, layers, job.path, entries);
            assert(0 <= places[i] < entries.len());
            let name = entries[places[i]].name@;
            assert(runs::distinct_names(entries));
            assert(paths::is_name(name));
            paths::entry_of_directory(job.path, name, base);
            name
        },
        Place::Unlisted => seq![],
    }
}

/// The directories that a scan has sizes for make a tree with the root of the
/// scan on top, so that what is said of recursive sizes in a tree holds of
/// them.
pub proof fn scanned_directories_make_a_tree(
    config: ScanConfig,
    tree: Tree,
    root: Job,
    workers: nat,
    turns: Seq<Turn<Job>>,
    stream: Seq<(int, Weighed)>,
    raw: SizeMap,
    content: SizeMap,
)
    requires
        tree.wf(),
        tree.lists(root),
        is_scan(config, tree, root, workers, turns, stream),
        raw.wf(),
        are_sizes(config, tree, runs::takes_of(turns), stream, raw@, content@),
    ensures
        rollup::is_tree(rollup::keys_of(raw.entries()), paths::tidied(root.path)),
{
    let jobs = runs::takes_of(turns);
    let keys = rollup::keys_of(raw.entries());
    let base = paths::tidied(root.path);
    lemma_scan_is_run(config, tree, root, workers, turns, stream);
    raw.entries_list_the_map();
    assert forall|q: Seq<char>| #[trigger] keys.contains(q) == content@.contains_key(q) by {
        assert(raw@.dom().contains(q) == content@.dom().contains(q));
        assert(raw@.contains_key(q) == raw@.dom().contains(q));
        if keys.contains(q) {
            let i = choose|i: int|
                0 <= i < raw.entries().len() && (#[trigger] raw.entries()[i]).0 == q;
            assert(raw@.contains_key(raw.entries()[i].0));
        }
    }
    runs::the_root_is_taken(subjobs(config, tree), root, jobs);
    assert(tree.lists(jobs[0]));
    assert forall|q: Seq<char>| #[trigger] keys.contains(q) implies paths::tidied(q) == q
        && paths::is_under(q, base) && (q == base || (paths::parent(q) is Some && keys.contains(
        paths::parent(q)->0,
    ))) by {
        assert(raw@.dom().contains(q));
        assert(raw@.contains_key(q));
        assert(content@.contains_key(q));
        let k = choose|k: int|
            0 <= k < jobs.len() && tree.lists(#[trigger] jobs[k]) && key_of()(jobs[k]) == q;
        lemma_under_root(config, tree, root, jobs, k);
    }
}

/// However many workers scan a tree, the root has the same recursive size.
pub proof fn workers_agree_on_the_root(
    config: ScanConfig,
    tree: Tree,
    root: Job,
    workers: nat,
    turns: Seq<Turn<Job>>,
    stream: Seq<(int, Weighed)>,
    raw: SizeMap,
    content: SizeMap,
    other_workers: nat,
    other_turns: Seq<Turn<Job>>,
    other_stream: Seq<(int, Weighed)>,
    other_raw: SizeMap,
    other_content: SizeMap,
)
    requires
        tree.wf(),
        tree.lists(root),
        is_scan(config, tree, root, workers, turns, stream),
        is_scan(config, tree, root, other_workers, other_turns, other_stream),
        scan::consistent(runs::output(stream)),
        raw.wf(),
        content.wf(),
        other_raw.wf(),
        other_content.wf(),
        are_sizes(config, tree, runs::takes_of(turns), stream, raw@, content@),
        are_sizes(
            config,
            tree,
            runs::takes_of(other_turns),
            other_stream,
            other_raw@,
            other_content@,
        ),
    ensures
        ({
            let base = paths::tidied(root.path);
            rollup::total(raw.entries(), base, base) == rollup::total(
                other_raw.entries(),
                base,
                base,
            )
        }),
{
    let base = paths::tidied(root.path);
    workers_weigh_the_same(
        config,
        tree,
        root,
        workers,
        turns,
        stream,
        raw,
        content,
        other_workers,
        other_turns,
        other_stream,
        other_raw,
        other_content,
    );
    scanned_directories_make_a_tree(config, tree, root, workers, turns, stream, raw, content);
    scanned_directories_make_a_tree(
        config,
        tree,
        root,
        other_workers,
        other_turns,
        other_stream,
        other_raw,
        other_content,
    );
    rollup::root_holds_everything(raw.entries(), base);
    rollup::root_holds_everything(other_raw.entries(), base);
}

} // verus!
