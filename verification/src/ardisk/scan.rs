//! The walk: which entries of a directory are counted or entered, and what
//! they weigh.

use crate::ardisk::scan_laws;
use crate::globs;
use crate::ignore_files;
use crate::ignore_files::{Fault, Layer};
use crate::paths;
use crate::paths::DirEntry;
use glob::Pattern;
use ignore::gitignore::Gitignore;
use std::collections::HashSet;
use std::sync::Arc;
use vstd::hash_set::StringHashSet;
use vstd::prelude::*;

verus! {

/// A directory that is still to be scanned.
pub struct Task {
    pub path: String,
    /// The ignore-file matchers from the root down to the directory's parent,
    /// outermost first.
    pub ignore_stack: Arc<Vec<Arc<Gitignore>>>,
}

/// Everything that stays the same during a scan.
pub struct ScanConfig {
    /// Directories to skip, by name.
    pub ignore_dirs: StringHashSet,
    /// Only files whose names match count. Directories are entered either way.
    pub include_pattern: Option<Pattern>,
    pub debug: bool,
    /// Files weigh what they hold, not the blocks that they take up.
    pub apparent_size: bool,
    /// Whether ignore files are obeyed.
    pub respect_gitignore: bool,
}

/// Puts a configuration together.
pub fn build_config(
    ignore_dirs: StringHashSet,
    include_pattern: Option<Pattern>,
    debug: bool,
    apparent_size: bool,
    respect_gitignore: bool,
) -> (r: Arc<ScanConfig>)
    ensures
        *r == (ScanConfig {
            ignore_dirs,
            include_pattern,
            debug,
            apparent_size,
            respect_gitignore,
        }),
{
    Arc::new(
        ScanConfig { ignore_dirs, include_pattern, debug, apparent_size, respect_gitignore },
    )
}

/// Where a file with several names is found again.
#[derive(Debug, Clone, Copy)]
pub struct Links {
    /// How many names the file has.
    pub nlink: u64,
    pub dev: u64,
    pub ino: u64,
}

/// What the file system tells of a file or directory. Not every system tells
/// of blocks and links.
#[derive(Debug, Clone, Copy)]
pub struct Metadata {
    pub len: u64,
    /// How many blocks of 512 bytes are taken up.
    pub blocks: Option<u64>,
    pub links: Option<Links>,
}

/// What a file weighs: the blocks that it takes up, or its length where that is
/// asked for or blocks are not told.
pub open spec fn weight(m: Metadata, apparent_size: bool) -> int {
    match m.blocks {
        Some(b) if !apparent_size => b * 512,
        _ => m.len as int,
    }
}

/// By what a file with more than one name is told from others; `None` for a
/// file with a single name.
pub open spec fn link_key(m: Metadata) -> Option<u128> {
    match m.links {
        Some(l) if l.nlink > 1 => Some((l.dev * 0x1_0000_0000_0000_0000 + l.ino) as u128),
        _ => None,
    }
}

/// Files with more than one name have the same key exactly if they are the
/// same file.
pub proof fn key_tells_files_apart(a: Metadata, b: Metadata)
    requires
        link_key(a) is Some,
        link_key(b) is Some,
    ensures
        link_key(a) == link_key(b) <==> a.links->0.dev == b.links->0.dev && a.links->0.ino
            == b.links->0.ino,
{
    let (da, ia) = (a.links->0.dev as int, a.links->0.ino as int);
    let (db, ib) = (b.links->0.dev as int, b.links->0.ino as int);
    assert(0 <= da * 0x1_0000_0000_0000_0000 + ia <= u128::MAX);
    assert(0 <= db * 0x1_0000_0000_0000_0000 + ib <= u128::MAX);
}

/// What a file weighs.
fn size_from_metadata(metadata: &Metadata, apparent_size: bool) -> (n: u128)
    ensures
        n == weight(*metadata, apparent_size),
        n <= u64::MAX * 512,
{
    match metadata.blocks {
        Some(b) => if apparent_size {
            metadata.len as u128
        } else {
            b as u128 * 512
        },
        None => metadata.len as u128,
    }
}

fn key_of(metadata: &Metadata) -> (r: Option<u128>)
    ensures
        r == link_key(*metadata),
{
    match metadata.links {
        Some(l) => if l.nlink > 1 {
            Some(l.dev as u128 * 0x1_0000_0000_0000_0000 + l.ino as u128)
        } else {
            None
        },
        None => None,
    }
}

impl ScanConfig {
    /// The ignore files say to leave a path out, and are obeyed.
    pub open spec fn ignores(self, layers: Seq<Layer>, path: Seq<char>, is_dir: bool) -> bool {
        self.respect_gitignore && ignore_files::layers_ignore(layers, path, is_dir)
    }

    /// A directory that is entered.
    pub open spec fn enters(self, layers: Seq<Layer>, dir: Seq<char>, e: DirEntry) -> bool {
        &&& !e.is_symlink
        &&& e.is_dir
        &&& !self.ignores(layers, paths::joined(dir, e.name@), true)
        &&& !self.ignore_dirs@.contains(e.name@)
    }

    /// A file that counts.
    pub open spec fn counts(self, layers: Seq<Layer>, dir: Seq<char>, e: DirEntry) -> bool {
        &&& !e.is_symlink
        &&& !e.is_dir
        &&& !self.ignores(layers, paths::joined(dir, e.name@), false)
        &&& self.include_pattern matches Some(p) ==> globs::glob_matches(
            globs::glob_text(p),
            e.name@,
            true,
        )
    }

    /// --include asks for every name: there is none, or it is a lone star.
    pub open spec fn takes_every_name(self) -> bool {
        self.include_pattern matches Some(p) ==> globs::glob_text(p) == seq!['*']
    }

    /// The same without --include.
    pub open spec fn unfiltered(self) -> ScanConfig {
        ScanConfig { include_pattern: None, ..self }
    }

    /// The places of the directories that are entered, in the order of the
    /// listing.
    pub open spec fn entered(
        self,
        layers: Seq<Layer>,
        dir: Seq<char>,
        entries: Seq<DirEntry>,
    ) -> Seq<int>
        decreases entries.len(),
    {
        if entries.len() == 0 {
            seq![]
        } else {
            let before = self.entered(layers, dir, entries.drop_last());
            if self.enters(layers, dir, entries.last()) {
                before.push(entries.len() - 1)
            } else {
                before
            }
        }
    }

    /// The places of the files that count, in the order of the listing.
    pub open spec fn counted(
        self,
        layers: Seq<Layer>,
        dir: Seq<char>,
        entries: Seq<DirEntry>,
    ) -> Seq<int>
        decreases entries.len(),
    {
        if entries.len() == 0 {
            seq![]
        } else {
            let before = self.counted(layers, dir, entries.drop_last());
            if self.counts(layers, dir, entries.last()) {
                before.push(entries.len() - 1)
            } else {
                before
            }
        }
    }
}

/// What is to be done about a directory.
pub struct DirPlan {
    /// The directories to enter.
    pub subtasks: Vec<Task>,
    /// The places of those directories in the listing.
    pub entered: Vec<usize>,
    /// The places, in the listing, of the files whose metadata is needed.
    pub counted: Vec<usize>,
    /// What is wrong with the directory's ignore files.
    pub faults: Vec<Fault>,
}

/// The numbers are the given places.
pub open spec fn places_are(numbers: Seq<usize>, places: Seq<int>) -> bool {
    &&& numbers.len() == places.len()
    &&& forall|i: int| 0 <= i < numbers.len() ==> #[trigger] numbers[i] == places[i]
}

/// The tasks are those for the entries at the given places, under the given
/// layers.
pub open spec fn tasks_for(
    tasks: Seq<Task>,
    layers: Seq<Layer>,
    dir: Seq<char>,
    entries: Seq<DirEntry>,
    places: Seq<int>,
) -> bool {
    &&& tasks.len() == places.len()
    &&& forall|i: int|
        0 <= i < tasks.len() ==> (#[trigger] tasks[i]).path@ == paths::joined(
            dir,
            entries[places[i]].name@,
        ) && ignore_files::layers((*tasks[i].ignore_stack)@) == layers
}

/// Goes through the listing of a directory, and tells which directories to
/// enter and which files count. `ignore_lines` holds the lines of the
/// directory's ignore files. Symbolic links are neither entered nor counted. A
/// lone star for --include is as good as none.
pub fn plan_directory(
    task: &Task,
    config: &ScanConfig,
    entries: &Vec<DirEntry>,
    ignore_lines: &Vec<Vec<String>>,
) -> (r: DirPlan)
    ensures
        ({
            let layers = ignore_files::layers_inside(
                ignore_files::layers((*task.ignore_stack)@),
                config.respect_gitignore,
                task.path@,
                ignore_lines.deep_view(),
            );
            let entered = config.entered(layers, task.path@, entries@);
            &&& tasks_for(r.subtasks@, layers, task.path@, entries@, entered)
            &&& places_are(r.entered@, entered)
            &&& places_are(r.counted@, config.counted(layers, task.path@, entries@))
            &&& forall|i: int| 0 <= i < r.counted@.len() ==> #[trigger] r.counted@[i] < entries@.len()
            &&& config.takes_every_name() ==> config.counted(layers, task.path@, entries@)
                == config.unfiltered().counted(layers, task.path@, entries@)
            &&& forall|k: int|
                0 <= k < r.counted@.len() ==> {
                    let e = entries@[#[trigger] r.counted@[k] as int];
                    &&& !e.is_dir && !e.is_symlink
                    &&& config.respect_gitignore ==> !ignore_files::layers_ignore(
                        layers,
                        paths::joined(task.path@, e.name@),
                        false,
                    )
                }
            &&& forall|k: int|
                0 <= k < r.entered@.len() ==> {
                    let e = entries@[#[trigger] r.entered@[k] as int];
                    &&& e.is_dir && !e.is_symlink
                    &&& !config.ignore_dirs@.contains(e.name@)
                    &&& config.respect_gitignore ==> !ignore_files::layers_ignore(
                        layers,
                        paths::joined(task.path@, e.name@),
                        true,
                    )
                    &&& r.subtasks@[k].path@ == paths::joined(task.path@, e.name@)
                }
            &&& r.subtasks@.len() == r.entered@.len()
        }),
        r.faults.deep_view() == (if config.respect_gitignore {
            ignore_files::dir_faults(ignore_lines.deep_view())
        } else {
            seq![]
        }),
{
    let (stack, faults) = ignore_files::enter_directory(
        &task.ignore_stack,
        config.respect_gitignore,
        task.path.as_str(),
        ignore_lines,
    );
    let ghost layers = ignore_files::layers((*stack)@);
    let mut subtasks: Vec<Task> = Vec::new();
    let mut entered: Vec<usize> = Vec::new();
    let mut counted: Vec<usize> = Vec::new();
    let mut i: usize = 0;
    while i < entries.len()
        invariant
            0 <= i <= entries.len(),
            layers == ignore_files::layers((*stack)@),
            tasks_for(
                subtasks@,
                layers,
                task.path@,
                entries@,
                config.entered(layers, task.path@, entries@.take(i as int)),
            ),
            places_are(
                entered@,
                config.entered(layers, task.path@, entries@.take(i as int)),
            ),
            places_are(
                counted@,
                config.counted(layers, task.path@, entries@.take(i as int)),
            ),
            forall|j: int| 0 <= j < counted@.len() ==> #[trigger] counted@[j] < i,
            config.takes_every_name() ==> config.counted(
                layers,
                task.path@,
                entries@.take(i as int),
            ) == config.unfiltered().counted(layers, task.path@, entries@.take(i as int)),
        decreases entries.len() - i,
    {
        let entry = &entries[i];
        proof {
            let next = entries@.take(i + 1);
            assert(next.drop_last() =~= entries@.take(i as int));
            assert(next.last() == *entry);
        }
        if !entry.is_symlink {
            let path = paths::join(task.path.as_str(), entry.name.as_str());
            let ignored: bool = config.respect_gitignore && ignore_files::is_path_ignored(
                &stack,
                path.as_str(),
                entry.is_dir,
            );
            if !ignored {
                if entry.is_dir {
                    if !config.ignore_dirs.contains(entry.name.as_str()) {
                        subtasks.push(Task { path, ignore_stack: ignore_files::share(&stack) });
                        entered.push(i);
                    }
                } else {
                    let included: bool = match &config.include_pattern {
                        Some(p) => globs::matches_name(p, entry.name.as_str(), true),
                        None => true,
                    };
                    if included {
                        counted.push(i);
                    }
                }
            }
        }
        i += 1;
    }
    assert(entries@.take(entries.len() as int) =~= entries@);
    proof {
        scan_laws::counted_files(*config, layers, task.path@, entries@);
        scan_laws::entered_directories(*config, layers, task.path@, entries@);
    }
    DirPlan { subtasks, entered, counted, faults }
}

/// A file on the scales: what it weighs, and its key if it has several names.
pub ghost struct Weighed {
    pub key: Option<u128>,
    pub size: int,
}

/// A file on the scales.
pub open spec fn weighed(m: Metadata, apparent_size: bool) -> Weighed {
    Weighed { key: link_key(m), size: weight(m, apparent_size) }
}

/// The files whose metadata could be had, on the scales.
pub open spec fn all_weighed(ms: Seq<Option<Metadata>>, apparent_size: bool) -> Seq<Weighed>
    decreases ms.len(),
{
    if ms.len() == 0 {
        seq![]
    } else {
        match ms.last() {
            Some(m) => all_weighed(ms.drop_last(), apparent_size).push(weighed(m, apparent_size)),
            None => all_weighed(ms.drop_last(), apparent_size),
        }
    }
}

/// What a file adds where the files with the keys `seen` were counted before:
/// nothing if it is one of them.
pub open spec fn adds(f: Weighed, seen: Set<u128>) -> int {
    match f.key {
        Some(k) if seen.contains(k) => 0,
        _ => f.size,
    }
}

/// The keys seen once a file was counted.
pub open spec fn seen_with(f: Weighed, seen: Set<u128>) -> Set<u128> {
    match f.key {
        Some(k) => seen.insert(k),
        None => seen,
    }
}

/// The keys seen once the files were counted.
pub open spec fn seen_after(files: Seq<Weighed>, seen: Set<u128>) -> Set<u128>
    decreases files.len(),
{
    if files.len() == 0 {
        seen
    } else {
        seen_with(files.last(), seen_after(files.drop_last(), seen))
    }
}

/// What the files weigh together, each counted once however many names it has.
pub open spec fn content(files: Seq<Weighed>, seen: Set<u128>) -> int
    decreases files.len(),
{
    if files.len() == 0 {
        0
    } else {
        content(files.drop_last(), seen) + adds(
            files.last(),
            seen_after(files.drop_last(), seen),
        )
    }
}

/// What a directory weighs itself, if its metadata could be had.
pub open spec fn own_weight(m: Option<Metadata>, apparent_size: bool) -> int {
    match m {
        Some(m) => weight(m, apparent_size),
        None => 0,
    }
}

/// What a directory weighs.
#[derive(Debug, Clone, Copy)]
pub struct DirWeight {
    /// Its files, and the directory itself.
    pub total: u64,
    /// Its files alone.
    pub content: u64,
}

proof fn lemma_content_grows(ms: Seq<Option<Metadata>>, apparent_size: bool, seen: Set<u128>, n: int)
    requires
        0 <= n <= ms.len(),
    ensures
        0 <= content(all_weighed(ms.take(n), apparent_size), seen) <= content(
            all_weighed(ms, apparent_size),
            seen,
        ),
    decreases ms.len(),
{
    if n == ms.len() {
        assert(ms.take(n) =~= ms);
        if n > 0 {
            let fewer = ms.drop_last();
            lemma_content_grows(fewer, apparent_size, seen, n - 1);
            assert(fewer.take(n - 1) =~= fewer);
            let files = all_weighed(fewer, apparent_size);
            if let Some(m) = ms.last() {
                assert(files.push(weighed(m, apparent_size)).drop_last() =~= files);
            }
        }
    } else {
        let fewer = ms.drop_last();
        lemma_content_grows(fewer, apparent_size, seen, n);
        assert(fewer.take(n) =~= ms.take(n));
        let files = all_weighed(fewer, apparent_size);
        if let Some(m) = ms.last() {
            assert(files.push(weighed(m, apparent_size)).drop_last() =~= files);
        }
    }
}

/// Puts the files that count on the scales. `metadata` holds what could be had
/// of each of them, `own` what could be had of the directory. A file with
/// several names weighs nothing if it was `seen` before, in this directory or
/// another. There is no result if the directory weighs more than a 64-bit
/// number can tell.
pub fn weigh_directory(
    metadata: &Vec<Option<Metadata>>,
    own: &Option<Metadata>,
    apparent_size: bool,
    seen: &mut HashSet<u128>,
) -> (r: Option<DirWeight>)
    ensures
        ({
            let sum = content(all_weighed(metadata@, apparent_size), old(seen)@);
            match r {
                Some(w) => w.content == sum && w.total == sum + own_weight(*own, apparent_size),
                None => sum + own_weight(*own, apparent_size) > u64::MAX,
            }
        }),
        final(seen)@ == seen_after(all_weighed(metadata@, apparent_size), old(seen)@),
{
    broadcast use vstd::std_specs::hash::group_hash_axioms;

    let ghost start = seen@;
    let mut sum: u128 = 0;
    let mut i: usize = 0;
    while i < metadata.len()
        invariant
            0 <= i <= metadata.len(),
            sum <= u64::MAX ==> sum == content(
                all_weighed(metadata@.take(i as int), apparent_size),
                start,
            ),
            sum > u64::MAX ==> content(all_weighed(metadata@.take(i as int), apparent_size), start)
                > u64::MAX,
            sum <= u64::MAX * 513,
            seen@ == seen_after(all_weighed(metadata@.take(i as int), apparent_size), start),
        decreases metadata.len() - i,
    {
        let ghost before = all_weighed(metadata@.take(i as int), apparent_size);
        proof {
            let next = metadata@.take(i + 1);
            assert(next.drop_last() =~= metadata@.take(i as int));
            assert(next.last() == metadata@[i as int]);
            assert(next.take(i as int) =~= metadata@.take(i as int));
            lemma_content_grows(next, apparent_size, start, i as int);
        }
        if let Some(m) = &metadata[i] {
            proof {
                let f = weighed(*m, apparent_size);
                assert(before.push(f).drop_last() =~= before);
            }
            let fresh: bool = match key_of(m) {
                Some(k) => seen.insert(k),
                None => true,
            };
            if fresh && sum <= u64::MAX as u128 {
                sum = sum + size_from_metadata(m, apparent_size);
            }
        }
        i += 1;
    }
    assert(metadata@.take(metadata.len() as int) =~= metadata@);
    let total: u128 = match own {
        Some(m) => sum + size_from_metadata(m, apparent_size),
        None => sum,
    };
    if total > u64::MAX as u128 {
        None
    } else {
        Some(DirWeight { total: total as u64, content: sum as u64 })
    }
}

/// What could be had of the entries at the given places.
pub open spec fn picked(ms: Seq<Option<Metadata>>, places: Seq<int>) -> Seq<Option<Metadata>> {
    Seq::new(places.len(), |i: int| ms[places[i]])
}

/// What comes of scanning a directory.
pub struct DirScan {
    /// What it weighs, if a 64-bit number can tell.
    pub weight: Option<DirWeight>,
    pub subtasks: Vec<Task>,
    /// What is wrong with the directory's ignore files.
    pub faults: Vec<Fault>,
}

/// Scans a directory whose listing is at hand, with what could be had of each
/// entry in `metadata`: plans it, and puts the files that count on the scales.
/// Of the metadata, only that of the counted files matters.
pub fn scan_directory(
    task: &Task,
    config: &ScanConfig,
    entries: &Vec<DirEntry>,
    metadata: &Vec<Option<Metadata>>,
    own: &Option<Metadata>,
    ignore_lines: &Vec<Vec<String>>,
    seen: &mut HashSet<u128>,
) -> (r: DirScan)
    requires
        metadata@.len() == entries@.len(),
    ensures
        ({
            let layers = ignore_files::layers_inside(
                ignore_files::layers((*task.ignore_stack)@),
                config.respect_gitignore,
                task.path@,
                ignore_lines.deep_view(),
            );
            let files = all_weighed(
                picked(metadata@, config.counted(layers, task.path@, entries@)),
                config.apparent_size,
            );
            &&& tasks_for(
                r.subtasks@,
                layers,
                task.path@,
                entries@,
                config.entered(layers, task.path@, entries@),
            )
            &&& {
                let sum = content(files, old(seen)@);
                let all = sum + own_weight(*own, config.apparent_size);
                match r.weight {
                    Some(w) => w.content == sum && w.total == all,
                    None => all > u64::MAX,
                }
            }
            &&& final(seen)@ == seen_after(files, old(seen)@)
            &&& config.takes_every_name() ==> config.counted(layers, task.path@, entries@)
                == config.unfiltered().counted(layers, task.path@, entries@)
        }),
        r.faults.deep_view() == (if config.respect_gitignore {
            ignore_files::dir_faults(ignore_lines.deep_view())
        } else {
            seq![]
        }),
{
    let plan = plan_directory(task, config, entries, ignore_lines);
    let ghost layers = ignore_files::layers_inside(
        ignore_files::layers((*task.ignore_stack)@),
        config.respect_gitignore,
        task.path@,
        ignore_lines.deep_view(),
    );
    let ghost places = config.counted(layers, task.path@, entries@);
    let mut known: Vec<Option<Metadata>> = Vec::new();
    let mut i: usize = 0;
    while i < plan.counted.len()
        invariant
            0 <= i <= plan.counted.len(),
            metadata@.len() == entries@.len(),
            places_are(plan.counted@, places),
            forall|j: int|
                0 <= j < plan.counted@.len() ==> #[trigger] plan.counted@[j] < entries@.len(),
            known@ == picked(metadata@, places).take(i as int),
        decreases plan.counted.len() - i,
    {
        let at: usize = plan.counted[i];
        let m: Option<Metadata> = metadata[at];
        known.push(m);
        proof {
            let all = picked(metadata@, places);
            assert(all.take(i + 1) =~= all.take(i as int).push(all[i as int]));
        }
        i += 1;
    }
    assert(known@ =~= picked(metadata@, places));
    let weight = weigh_directory(&known, own, config.apparent_size, seen);
    DirScan { weight, subtasks: plan.subtasks, faults: plan.faults }
}

proof fn lemma_seen(files: Seq<Weighed>, seen: Set<u128>, k: u128)
    ensures
        seen_after(files, seen).contains(k) <==> seen.contains(k) || exists|i: int|
            0 <= i < files.len() && (#[trigger] files[i]).key == Some(k),
    decreases files.len(),
{
    if files.len() > 0 {
        let fewer = files.drop_last();
        lemma_seen(fewer, seen, k);
        if exists|i: int| 0 <= i < fewer.len() && (#[trigger] fewer[i]).key == Some(k) {
            let i = choose|i: int| 0 <= i < fewer.len() && (#[trigger] fewer[i]).key == Some(k);
            assert(files[i].key == Some(k));
        }
        if exists|i: int| 0 <= i < files.len() && (#[trigger] files[i]).key == Some(k) {
            let i = choose|i: int| 0 <= i < files.len() && (#[trigger] files[i]).key == Some(k);
            if i < fewer.len() {
                assert(fewer[i].key == Some(k));
            } else {
                assert(files.last().key == Some(k));
            }
        }
        if files.last().key == Some(k) {
            assert(files[files.len() - 1].key == Some(k));
        }
    }
}

/// Scanning one directory after another counts what scanning their files
/// together would: the keys carry over.
pub proof fn scans_add_up(first: Seq<Weighed>, second: Seq<Weighed>, seen: Set<u128>)
    ensures
        content(first + second, seen) == content(first, seen) + content(
            second,
            seen_after(first, seen),
        ),
        seen_after(first + second, seen) == seen_after(second, seen_after(first, seen)),
    decreases second.len(),
{
    if second.len() == 0 {
        assert(first + second =~= first);
    } else {
        scans_add_up(first, second.drop_last(), seen);
        assert((first + second).drop_last() =~= first + second.drop_last());
        assert((first + second).last() == second.last());
    }
}

/// A file that was counted under one of its names weighs nothing under the
/// others.
pub proof fn further_names_are_free(files: Seq<Weighed>, seen: Set<u128>, again: Weighed)
    requires
        again.key is Some,
        exists|i: int| 0 <= i < files.len() && (#[trigger] files[i]).key == again.key,
    ensures
        content(files.push(again), seen) == content(files, seen),
{
    assert(files.push(again).drop_last() =~= files);
    lemma_seen(files, seen, again.key->0);
}

/// Files with the same key weigh the same: they are the same file.
pub open spec fn consistent(files: Seq<Weighed>) -> bool {
    forall|i: int, j: int|
        0 <= i < files.len() && 0 <= j < files.len() && (#[trigger] files[i]).key is Some
            && files[i].key == (#[trigger] files[j]).key ==> files[i].size == files[j].size
}

/// Moving one file to the end changes neither the sum nor the keys.
proof fn lemma_move_to_end(files: Seq<Weighed>, seen: Set<u128>, i: int)
    requires
        consistent(files),
        0 <= i < files.len(),
    ensures
        content(files, seen) == content(files.remove(i), seen) + adds(
            files[i],
            seen_after(files.remove(i), seen),
        ),
        seen_after(files, seen) == seen_with(files[i], seen_after(files.remove(i), seen)),
    decreases files.len(),
{
    let n = files.len() - 1;
    if i == n {
        assert(files.remove(i) =~= files.drop_last());
    } else {
        let fewer = files.drop_last();
        let g = files.last();
        let f = files[i];
        assert(consistent(fewer)) by {
            assert forall|a: int, b: int|
                0 <= a < fewer.len() && 0 <= b < fewer.len() && (#[trigger] fewer[a]).key is Some
                    && fewer[a].key == (#[trigger] fewer[b]).key implies fewer[a].size
                == fewer[b].size by {
                assert(fewer[a] == files[a] && fewer[b] == files[b]);
            }
        }
        lemma_move_to_end(fewer, seen, i);
        let rest = fewer.remove(i);
        assert(files.remove(i).drop_last() =~= rest);
        assert(files.remove(i).last() == g);
        let known = seen_after(rest, seen);
        assert(files[i].key is Some && files[i].key == files[n].key ==> files[i].size
            == files[n].size);
        assert(seen_with(g, seen_with(f, known)) =~= seen_with(f, seen_with(g, known)));
    }
}

/// In whatever order the files of a tree come up, they weigh the same
/// together: which name of a file gets the credit makes no difference to the
/// grand total.
pub proof fn order_makes_no_difference(a: Seq<Weighed>, b: Seq<Weighed>, seen: Set<u128>)
    requires
        consistent(a),
        a.to_multiset() == b.to_multiset(),
    ensures
        content(a, seen) == content(b, seen),
        seen_after(a, seen) == seen_after(b, seen),
    decreases a.len(),
{
    broadcast use vstd::seq_lib::group_to_multiset_ensures;

    assert(a.len() == a.to_multiset().len() && b.len() == b.to_multiset().len());
    if a.len() == 0 {
        assert(a =~= b);
    } else {
        let f = a.last();
        let n = a.len() - 1;
        assert(a.contains(f)) by {
            assert(a[n] == f);
        }
        assert(b.contains(f)) by {
            assert(a.to_multiset().count(f) > 0);
        }
        let i = choose|i: int| 0 <= i < b.len() && b[i] == f;
        assert(consistent(b)) by {
            assert forall|x: int, y: int|
                0 <= x < b.len() && 0 <= y < b.len() && (#[trigger] b[x]).key is Some && b[x].key
                    == (#[trigger] b[y]).key implies b[x].size == b[y].size by {
                assert(b.contains(b[x]) && b.contains(b[y]));
                assert(a.to_multiset().count(b[x]) > 0 && a.to_multiset().count(b[y]) > 0);
                assert(a.contains(b[x]) && a.contains(b[y]));
                let p = choose|p: int| 0 <= p < a.len() && a[p] == b[x];
                let q = choose|q: int| 0 <= q < a.len() && a[q] == b[y];
                assert(a[p].size == a[q].size);
            }
        }
        lemma_move_to_end(b, seen, i);
        let fewer = a.drop_last();
        assert(fewer =~= a.remove(n));
        assert(fewer.to_multiset() =~= b.remove(i).to_multiset());
        assert(consistent(fewer)) by {
            assert forall|x: int, y: int|
                0 <= x < fewer.len() && 0 <= y < fewer.len() && (#[trigger] fewer[x]).key is Some
                    && fewer[x].key == (#[trigger] fewer[y]).key implies fewer[x].size
                == fewer[y].size by {
                assert(fewer[x] == a[x] && fewer[y] == a[y]);
            }
        }
        order_makes_no_difference(fewer, b.remove(i), seen);
    }
}

} // verus!
