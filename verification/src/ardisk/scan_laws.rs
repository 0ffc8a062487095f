//! What holds of every scan: what is entered, what counts, and what it weighs.

use crate::ardisk::cli;
use crate::ardisk::cli::Args;
use crate::ardisk::scan;
use crate::ardisk::scan::{Metadata, ScanConfig, Task, Weighed};
use crate::globs;
use crate::ignore_files;
use crate::ignore_files::Layer;
use crate::paths;
use crate::paths::DirEntry;
use crate::runs;
use crate::text;
use vstd::prelude::*;

verus! {

/// The files that count are entries of the listing, each once and in its
/// order: exactly those that are no directory and no symbolic link, that no
/// ignore file in force leaves out, and whose name --include matches if it is
/// given.
pub proof fn counted_files(
    config: ScanConfig,
    layers: Seq<Layer>,
    dir: Seq<char>,
    entries: Seq<DirEntry>,
)
    ensures
        ({
            let places = config.counted(layers, dir, entries);
            &&& forall|a: int, b: int|
                0 <= a < b < places.len() ==> #[trigger] places[a] < #[trigger] places[b]
            &&& forall|k: int|
                0 <= k < places.len() ==> {
                    let i = #[trigger] places[k];
                    let e = entries[i];
                    &&& 0 <= i < entries.len()
                    &&& !e.is_dir && !e.is_symlink
                    &&& config.respect_gitignore ==> !ignore_files::layers_ignore(
                        layers,
                        paths::joined(dir, e.name@),
                        false,
                    )
                    &&& config.include_pattern matches Some(p) ==> globs::glob_matches(
                        globs::glob_text(p),
                        e.name@,
                        true,
                    )
                }
            &&& forall|i: int|
                0 <= i < entries.len() && !(#[trigger] entries[i]).is_dir && !entries[i].is_symlink
                    && !(config.respect_gitignore && ignore_files::layers_ignore(
                    layers,
                    paths::joined(dir, entries[i].name@),
                    false,
                )) && (config.include_pattern is Some ==> globs::glob_matches(
                    globs::glob_text(config.include_pattern->0),
                    entries[i].name@,
                    true,
                )) ==> places.contains(i)
        }),
    decreases entries.len(),
{
    if entries.len() > 0 {
        let n = entries.len() - 1;
        let fewer = entries.drop_last();
        counted_files(config, layers, dir, fewer);
        let before = config.counted(layers, dir, fewer);
        let places = config.counted(layers, dir, entries);
        assert forall|k: int| 0 <= k < places.len() implies 0 <= #[trigger] places[k]
            < entries.len() && (k < before.len() ==> places[k] == before[k] && entries[before[k]]
            == fewer[before[k]]) && (k >= before.len() ==> places[k] == n) by {
            if k < before.len() {
                assert(places[k] == before[k]);
            }
        }
        assert forall|i: int| 0 <= i < n && before.contains(i) implies #[trigger] places.contains(
            i,
        ) by {
            let k = before.index_of(i);
            assert(places[k] == i);
        }
        assert forall|i: int| 0 <= i < n implies #[trigger] entries[i] == fewer[i] by {}
        if places.len() > before.len() {
            assert(places[places.len() - 1] == n);
            assert(places.contains(n));
        }
    }
}

/// The directories that are entered are entries of the listing, each once and
/// in its order: exactly the directories that are no symbolic link, that no
/// ignore file in force leaves out, and that are not to be skipped by name.
/// --include has no say in it.
pub proof fn entered_directories(
    config: ScanConfig,
    layers: Seq<Layer>,
    dir: Seq<char>,
    entries: Seq<DirEntry>,
)
    ensures
        ({
            let places = config.entered(layers, dir, entries);
            &&& forall|a: int, b: int|
                0 <= a < b < places.len() ==> #[trigger] places[a] < #[trigger] places[b]
            &&& forall|k: int|
                0 <= k < places.len() ==> {
                    let i = #[trigger] places[k];
                    let e = entries[i];
                    &&& 0 <= i < entries.len()
                    &&& e.is_dir && !e.is_symlink
                    &&& config.respect_gitignore ==> !ignore_files::layers_ignore(
                        layers,
                        paths::joined(dir, e.name@),
                        true,
                    )
                    &&& !config.ignore_dirs@.contains(e.name@)
                }
            &&& forall|i: int|
                0 <= i < entries.len() && (#[trigger] entries[i]).is_dir && !entries[i].is_symlink
                    && !(config.respect_gitignore && ignore_files::layers_ignore(
                    layers,
                    paths::joined(dir, entries[i].name@),
                    true,
                )) && !config.ignore_dirs@.contains(entries[i].name@) ==> places.contains(i)
        }),
    decreases entries.len(),
{
    if entries.len() > 0 {
        let n = entries.len() - 1;
        let fewer = entries.drop_last();
        entered_directories(config, layers, dir, fewer);
        let before = config.entered(layers, dir, fewer);
        let places = config.entered(layers, dir, entries);
        assert forall|k: int| 0 <= k < places.len() implies 0 <= #[trigger] places[k]
            < entries.len() && (k < before.len() ==> places[k] == before[k] && entries[before[k]]
            == fewer[before[k]]) && (k >= before.len() ==> places[k] == n) by {
            if k < before.len() {
                assert(places[k] == before[k]);
            }
        }
        assert forall|i: int| 0 <= i < n && before.contains(i) implies #[trigger] places.contains(
            i,
        ) by {
            let k = before.index_of(i);
            assert(places[k] == i);
        }
        assert forall|i: int| 0 <= i < n implies #[trigger] entries[i] == fewer[i] by {}
        if places.len() > before.len() {
            assert(places[places.len() - 1] == n);
            assert(places.contains(n));
        }
    }
}

/// An ignored path is left out of a scan that obeys ignore files, whether it is
/// that of a file or of a directory.
pub proof fn ignored_paths_are_left_out(
    config: ScanConfig,
    layers: Seq<Layer>,
    dir: Seq<char>,
    entries: Seq<DirEntry>,
    i: int,
)
    requires
        config.respect_gitignore,
        0 <= i < entries.len(),
        ignore_files::layers_ignore(
            layers,
            paths::joined(dir, entries[i].name@),
            entries[i].is_dir,
        ),
    ensures
        !config.counted(layers, dir, entries).contains(i),
        !config.entered(layers, dir, entries).contains(i),
{
    counted_files(config, layers, dir, entries);
    entered_directories(config, layers, dir, entries);
    let (c, e) = (config.counted(layers, dir, entries), config.entered(layers, dir, entries));
    if c.contains(i) {
        let k = c.index_of(i);
        assert(c[k] == i);
    }
    if e.contains(i) {
        let k = e.index_of(i);
        assert(e[k] == i);
    }
}

/// What a file weighs: its length where that is asked for or blocks are not
/// told, else 512 bytes for each block.
pub proof fn weights(m: Metadata, apparent_size: bool)
    ensures
        apparent_size ==> scan::weight(m, apparent_size) == m.len,
        m.blocks is None ==> scan::weight(m, apparent_size) == m.len,
        !apparent_size && m.blocks is Some ==> scan::weight(m, apparent_size) == 512 * m.blocks->0,
        scan::own_weight(Some(m), apparent_size) == scan::weight(m, apparent_size),
        scan::own_weight(None, apparent_size) == 0,
{
}

/// Only a file with more than one name has a key.
pub proof fn keys_are_for_links(m: Metadata)
    ensures
        scan::link_key(m) is Some <==> m.links is Some && m.links->0.nlink >= 2,
{
}

/// What a file adds to the weight of its directory where none of its other
/// names came up before.
pub open spec fn weight_of_file(apparent_size: bool) -> spec_fn(Option<Metadata>) -> int {
    |m: Option<Metadata>|
        match m {
            Some(m) => if apparent_size || m.blocks is None {
                m.len as int
            } else {
                512 * m.blocks->0
            },
            None => 0,
        }
}

/// Files with a single name weigh, together, the sum of what each weighs. One
/// whose metadata cannot be had weighs nothing.
pub proof fn single_names_add_up(ms: Seq<Option<Metadata>>, apparent_size: bool, seen: Set<u128>)
    requires
        forall|i: int|
            0 <= i < ms.len() ==> ((#[trigger] ms[i]) matches Some(m) ==> m.links is None
                || m.links->0.nlink <= 1),
    ensures
        scan::content(scan::all_weighed(ms, apparent_size), seen) == runs::amount(
            ms,
            weight_of_file(apparent_size),
        ),
        scan::seen_after(scan::all_weighed(ms, apparent_size), seen) == seen,
    decreases ms.len(),
{
    if ms.len() > 0 {
        let fewer = ms.drop_last();
        assert forall|i: int| 0 <= i < fewer.len() implies ((#[trigger] fewer[i]) matches Some(m)
            ==> m.links is None || m.links->0.nlink <= 1) by {
            assert(fewer[i] == ms[i]);
        }
        single_names_add_up(fewer, apparent_size, seen);
        let before = scan::all_weighed(fewer, apparent_size);
        assert(ms[ms.len() - 1] == ms.last());
        if let Some(m) = ms.last() {
            let f = scan::weighed(m, apparent_size);
            assert(before.push(f).drop_last() =~= before);
        }
    }
}

/// A file with several names weighs its full weight where none of them came up
/// before, and nothing where one did; either way its key is known from then on.
pub proof fn a_link_weighs_once(files: Seq<Weighed>, m: Metadata, apparent_size: bool, seen: Set<u128>)
    requires
        m.links is Some,
        m.links->0.nlink >= 2,
    ensures
        ({
            let f = scan::weighed(m, apparent_size);
            let all = files.push(f);
            let known = scan::seen_after(files, seen).contains(f.key->0);
            &&& scan::content(all, seen) == scan::content(files, seen) + if known {
                0
            } else if apparent_size || m.blocks is None {
                m.len as int
            } else {
                512 * m.blocks->0
            }
            &&& scan::seen_after(all, seen) == scan::seen_after(files, seen).insert(f.key->0)
        }),
{
    let f = scan::weighed(m, apparent_size);
    assert(files.push(f).drop_last() =~= files);
}

/// A file with a single name weighs its full weight whatever came before it, and
/// leaves no key behind.
pub proof fn a_single_name_weighs_fully(
    files: Seq<Weighed>,
    m: Metadata,
    apparent_size: bool,
    seen: Set<u128>,
)
    requires
        m.links is None || m.links->0.nlink <= 1,
    ensures
        ({
            let all = files.push(scan::weighed(m, apparent_size));
            &&& scan::content(all, seen) == scan::content(files, seen) + if apparent_size
                || m.blocks is None {
                m.len as int
            } else {
                512 * m.blocks->0
            }
            &&& scan::seen_after(all, seen) == scan::seen_after(files, seen)
        }),
        scan::content(seq![], seen) == 0,
        scan::seen_after(seq![], seen) == seen,
{
    assert(files.push(scan::weighed(m, apparent_size)).drop_last() =~= files);
}

/// Every file that counts goes on the scales with its own metadata, and nothing
/// else does: one more entry in a listing adds its own metadata if it counts,
/// and changes nothing if it does not.
pub proof fn files_are_weighed_by_their_own_metadata(
    config: ScanConfig,
    layers: Seq<Layer>,
    dir: Seq<char>,
    entries: Seq<DirEntry>,
    ms: Seq<Option<Metadata>>,
    e: DirEntry,
    m: Option<Metadata>,
)
    requires
        ms.len() == entries.len(),
    ensures
        ({
            let before = scan::picked(ms, config.counted(layers, dir, entries));
            let all = scan::picked(ms.push(m), config.counted(layers, dir, entries.push(e)));
            let counts = !e.is_dir && !e.is_symlink && !(config.respect_gitignore
                && ignore_files::layers_ignore(layers, paths::joined(dir, e.name@), false)) && (
            config.include_pattern is Some ==> globs::glob_matches(
                globs::glob_text(config.include_pattern->0),
                e.name@,
                true,
            ));
            all == if counts {
                before.push(m)
            } else {
                before
            }
        }),
{
    counted_files(config, layers, dir, entries);
    assert(entries.push(e).drop_last() =~= entries);
    let places = config.counted(layers, dir, entries);
    let before = scan::picked(ms, places);
    let all = scan::picked(ms.push(m), config.counted(layers, dir, entries.push(e)));
    assert forall|k: int| 0 <= k < places.len() implies all[k] == before[k] by {
        assert(0 <= places[k] < entries.len());
    }
    assert(all =~= if all.len() > before.len() {
        before.push(m)
    } else {
        before
    });
}

/// The tasks that come of a directory are for the directories entered, one for
/// each, in their order, by their own paths and under the layers in force.
pub proof fn tasks_are_for_the_entered_directories(
    tasks: Seq<Task>,
    config: ScanConfig,
    layers: Seq<Layer>,
    dir: Seq<char>,
    entries: Seq<DirEntry>,
    k: int,
)
    requires
        scan::tasks_for(tasks, layers, dir, entries, config.entered(layers, dir, entries)),
        0 <= k < tasks.len(),
    ensures
        tasks.len() == config.entered(layers, dir, entries).len(),
        ({
            let e = entries[config.entered(layers, dir, entries)[k]];
            &&& e.is_dir && !e.is_symlink
            &&& tasks[k].path@ == paths::joined(dir, e.name@)
            &&& ignore_files::layers((*tasks[k].ignore_stack)@) == layers
        }),
{
    entered_directories(config, layers, dir, entries);
    assert(0 <= config.entered(layers, dir, entries)[k] < entries.len());
}

/// The directories to skip: the usual ones unless --no-ignore is given, and
/// those asked for, whatever else is given.
pub proof fn skipped_directories(no_ignore: bool, extra: Seq<Seq<char>>, name: Seq<char>)
    ensures
        cli::skipped_names(no_ignore, extra).contains(name) <==> (!no_ignore && (name == ".git"@
            || name == "node_modules"@ || name == "__pycache__"@)) || extra.contains(name),
{
    if extra.contains(name) {
        assert(extra.to_set().contains(name));
    }
}

/// The arguments are at fault exactly if the pattern does not compile or the
/// threshold is no amount.
pub proof fn faults_of_the_arguments(args: Args)
    ensures
        cli::args_fault(args) is None <==> {
            &&& args.include_pattern matches Some(p) ==> globs::glob_fault(p@) is None
            &&& args.threshold matches Some(t) ==> crate::amounts::amount(
                text::trimmed(t@),
            ) is Bytes
        },
{
}

} // verus!
