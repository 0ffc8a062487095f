//! What holds of every walk: which entries are searched, listed, entered or
//! left out.

use crate::argrep::config::SearchConfig;
use crate::argrep::scan;
use crate::argrep::scan::{Action, Step};
use crate::globs;
use crate::ignore_files;
use crate::ignore_files::Layer;
use crate::paths;
use crate::paths::DirEntry;
use glob::Pattern;
use vstd::prelude::*;

verus! {

/// Some pattern of the list matches the name, letter case included.
spec fn one_matches(patterns: Seq<Pattern>, name: Seq<char>) -> bool {
    exists|i: int|
        0 <= i < patterns.len() && globs::glob_matches(
            globs::glob_text(#[trigger] patterns[i]),
            name,
            true,
        )
}

/// An entry is kept exactly if nothing speaks against it: it is no symbolic
/// link, is not hidden unless that is asked for, and no ignore file in force
/// leaves its path out, be it a file or a directory. A directory must not be one
/// to skip, by name or by pattern. A file must match --include, one of --type,
/// and none of --exclude and --type-not, as far as these are given.
pub proof fn kept_entries(config: SearchConfig, layers: Seq<Layer>, dir: Seq<char>, e: DirEntry)
    ensures
        config.keeps(layers, dir, e) <==> {
            let name = e.name@;
            &&& !e.is_symlink
            &&& config.hidden || name.len() == 0 || name[0] != '.'
            &&& config.respect_gitignore ==> !ignore_files::layers_ignore(
                layers,
                paths::joined(dir, name),
                e.is_dir,
            )
            &&& e.is_dir ==> !config.ignore_dirs@.contains(name) && forall|i: int|
                0 <= i < config.ignore_dir_patterns@.len() ==> !globs::glob_matches(
                    globs::glob_text(#[trigger] config.ignore_dir_patterns@[i]),
                    name,
                    true,
                )
            &&& !e.is_dir ==> {
                &&& config.include_pattern is Some ==> globs::glob_matches(
                    globs::glob_text(config.include_pattern->0),
                    name,
                    true,
                )
                &&& forall|i: int|
                    0 <= i < config.exclude_patterns@.len() ==> !globs::glob_matches(
                        globs::glob_text(#[trigger] config.exclude_patterns@[i]),
                        name,
                        true,
                    )
                &&& forall|i: int|
                    0 <= i < config.type_not_patterns@.len() ==> !globs::glob_matches(
                        globs::glob_text(#[trigger] config.type_not_patterns@[i]),
                        name,
                        true,
                    )
                &&& config.type_patterns@.len() > 0 ==> exists|i: int|
                    0 <= i < config.type_patterns@.len() && globs::glob_matches(
                        globs::glob_text(#[trigger] config.type_patterns@[i]),
                        name,
                        true,
                    )
            }
        },
{
    let name = e.name@;
    assert(globs::any_glob_matches(config.type_patterns@, name) == one_matches(
        config.type_patterns@,
        name,
    ));
}

/// What is done about an entry that is kept: a directory is entered under its
/// own path and with the layers of its directory, a file is searched, or listed
/// under --files, by its own path. Nothing is done about any other entry. Every
/// entry that is neither a directory nor a symbolic link counts as come upon.
pub proof fn steps_do_as_the_entry_calls_for(
    step: Step,
    config: SearchConfig,
    layers: Seq<Layer>,
    dir: Seq<char>,
    e: DirEntry,
)
    requires
        step.is_for(config, layers, dir, e),
    ensures
        step.action is Pass <==> !config.keeps(layers, dir, e),
        step.action is Descend <==> config.keeps(layers, dir, e) && e.is_dir,
        step.action is Search <==> config.keeps(layers, dir, e) && !e.is_dir && !config.files_only,
        step.action is List <==> config.keeps(layers, dir, e) && !e.is_dir && config.files_only,
        step.action matches Action::Descend(t) ==> t.path@ == paths::joined(dir, e.name@)
            && ignore_files::layers((*t.ignore_stack)@) == layers,
        step.action matches Action::Search(p) ==> p@ == paths::joined(dir, e.name@),
        step.action matches Action::List(p) ==> p@ == paths::joined(dir, e.name@),
        step.discovered <==> !e.is_dir && !e.is_symlink,
        step.is_take() <==> step.action is Search || step.action is List,
        step.is_skip() <==> step.discovered && !step.is_take(),
{
}

/// --include only ever narrows a search: with it, exactly those files are left
/// whose names it matches, and every directory is entered as before.
pub proof fn including_narrows(
    config: SearchConfig,
    p: Pattern,
    layers: Seq<Layer>,
    dir: Seq<char>,
    e: DirEntry,
)
    requires
        config.include_pattern is None,
    ensures
        ({
            let narrow = SearchConfig { include_pattern: Some(p), ..config };
            narrow.keeps(layers, dir, e) <==> config.keeps(layers, dir, e) && (e.is_dir
                || globs::glob_matches(globs::glob_text(p), e.name@, true))
        }),
{
}

/// One more pattern for --exclude leaves out exactly the files that it matches.
pub proof fn excluding_leaves_out(
    config: SearchConfig,
    more: SearchConfig,
    p: Pattern,
    layers: Seq<Layer>,
    dir: Seq<char>,
    e: DirEntry,
)
    requires
        more == (SearchConfig { exclude_patterns: more.exclude_patterns, ..config }),
        more.exclude_patterns@ == config.exclude_patterns@.push(p),
    ensures
        more.keeps(layers, dir, e) <==> config.keeps(layers, dir, e) && (e.is_dir
            || !globs::glob_matches(globs::glob_text(p), e.name@, true)),
{
    let (a, b) = (config.exclude_patterns@, more.exclude_patterns@);
    let name = e.name@;
    assert(b[a.len() as int] == p);
    if globs::any_glob_matches(a, name) {
        let i = choose|i: int|
            0 <= i < a.len() && globs::glob_matches(globs::glob_text(#[trigger] a[i]), name, true);
        assert(b[i] == a[i]);
    }
    if globs::any_glob_matches(b, name) {
        let i = choose|i: int|
            0 <= i < b.len() && globs::glob_matches(globs::glob_text(#[trigger] b[i]), name, true);
        if i < a.len() {
            assert(a[i] == b[i]);
        }
    }
}

/// --hidden only ever adds to a search, and adds exactly the hidden entries.
pub proof fn hidden_entries_come_back(
    config: SearchConfig,
    open: SearchConfig,
    layers: Seq<Layer>,
    dir: Seq<char>,
    e: DirEntry,
)
    requires
        !config.hidden,
        open == (SearchConfig { hidden: true, ..config }),
    ensures
        config.keeps(layers, dir, e) <==> open.keeps(layers, dir, e) && !(e.name@.len() > 0
            && e.name@[0] == '.'),
{
    kept_entries(config, layers, dir, e);
    kept_entries(open, layers, dir, e);
}

/// --no-ignore only ever adds to a search: what the ignore files leave out comes
/// back, and nothing else.
pub proof fn ignored_entries_come_back(
    config: SearchConfig,
    open: SearchConfig,
    layers: Seq<Layer>,
    dir: Seq<char>,
    e: DirEntry,
)
    requires
        config.respect_gitignore,
        open == (SearchConfig { respect_gitignore: false, ..config }),
    ensures
        config.keeps(layers, dir, e) <==> open.keeps(layers, dir, e)
            && !ignore_files::layers_ignore(layers, paths::joined(dir, e.name@), e.is_dir),
{
    kept_entries(config, layers, dir, e);
    kept_entries(open, layers, dir, e);
}

/// A gzip file is one whose name is something, and then `.gz`, unless that
/// something ends with `.tar`.
pub proof fn gzip_names(stem: Seq<char>)
    ensures
        stem.len() > 0 && !(stem.len() >= 4 && stem.skip(stem.len() - 4) == seq!['.', 't', 'a', 'r'])
            ==> scan::is_gzip_name(stem + seq!['.', 'g', 'z']),
        !scan::is_gzip_name(stem + seq!['.', 't', 'a', 'r', '.', 'g', 'z']),
        !scan::is_gzip_name(seq!['.', 'g', 'z']),
        stem.len() < 3 || stem.skip(stem.len() - 3) != seq!['.', 'g', 'z'] ==> !scan::is_gzip_name(
            stem,
        ),
{
    let gz = seq!['.', 'g', 'z'];
    let tar = seq!['.', 't', 'a', 'r', '.', 'g', 'z'];
    let a = stem + gz;
    assert(a.skip(a.len() - 3) =~= gz);
    if stem.len() >= 4 {
        let end = a.skip(a.len() - 7);
        if end == tar {
            assert(stem.skip(stem.len() - 4) =~= end.take(4));
            assert(end.take(4) =~= seq!['.', 't', 'a', 'r']);
        }
    }
    let b = stem + tar;
    assert(b.skip(b.len() - 7) =~= tar);
}

} // verus!
