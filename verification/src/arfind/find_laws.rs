//! What holds of every search: which entries are found, which directories are
//! entered, and how the options relate to each other.

use crate::arfind::cli;
use crate::arfind::cli::Args;
use crate::arfind::scan::{Consideration, Facts, Found, SearchConfig, SizeFilter};
use crate::globs;
use crate::ignore_files;
use crate::ignore_files::Layer;
use crate::paths;
use crate::paths::DirEntry;
use crate::text;
use crate::text_laws;
use vstd::prelude::*;

verus! {

/// The places, in the listing, of what is found.
spec fn found_places(
    config: SearchConfig,
    layers: Seq<Layer>,
    dir: Seq<char>,
    entries: Seq<DirEntry>,
    facts: Seq<Facts>,
) -> Seq<int>
    decreases entries.len(),
{
    if entries.len() == 0 {
        seq![]
    } else {
        let n = entries.len() - 1;
        let before = found_places(config, layers, dir, entries.drop_last(), facts);
        if config.finds(layers, dir, entries[n], facts[n]) {
            before.push(n)
        } else {
            before
        }
    }
}

proof fn lemma_found_places(
    config: SearchConfig,
    layers: Seq<Layer>,
    dir: Seq<char>,
    entries: Seq<DirEntry>,
    facts: Seq<Facts>,
)
    ensures
        ({
            let places = found_places(config, layers, dir, entries, facts);
            let found = config.found(layers, dir, entries, facts);
            &&& places.len() == found.len()
            &&& forall|k: int|
                0 <= k < places.len() ==> {
                    let i = #[trigger] places[k];
                    &&& 0 <= i < entries.len()
                    &&& config.finds(layers, dir, entries[i], facts[i])
                    &&& found[k] == (Found {
                        path: paths::joined(dir, entries[i].name@),
                        is_dir: entries[i].is_dir,
                    })
                }
            &&& forall|a: int, b: int|
                0 <= a < b < places.len() ==> #[trigger] places[a] < #[trigger] places[b]
            &&& forall|i: int|
                0 <= i < entries.len() && config.finds(
                    layers,
                    dir,
                    #[trigger] entries[i],
                    facts[i],
                ) ==> places.contains(i)
        }),
    decreases entries.len(),
{
    if entries.len() > 0 {
        let n = entries.len() - 1;
        let fewer = entries.drop_last();
        lemma_found_places(config, layers, dir, fewer, facts);
        let before = found_places(config, layers, dir, fewer, facts);
        let places = found_places(config, layers, dir, entries, facts);
        let found = config.found(layers, dir, entries, facts);
        assert forall|k: int| 0 <= k < places.len() implies ({
            let i = #[trigger] places[k];
            &&& 0 <= i < entries.len()
            &&& config.finds(layers, dir, entries[i], facts[i])
            &&& found[k] == (Found {
                path: paths::joined(dir, entries[i].name@),
                is_dir: entries[i].is_dir,
            })
        }) by {
            if k < before.len() {
                assert(places[k] == before[k]);
                assert(fewer[before[k]] == entries[before[k]]);
            }
        }
        assert forall|a: int, b: int| 0 <= a < b < places.len() implies #[trigger] places[a]
            < #[trigger] places[b] by {
            assert(places[a] == before[a]);
            if b < before.len() {
                assert(places[b] == before[b]);
            }
        }
        assert forall|i: int|
            0 <= i < entries.len() && config.finds(
                layers,
                dir,
                #[trigger] entries[i],
                facts[i],
            ) implies places.contains(i) by {
            if i == n {
                assert(places[places.len() - 1] == i);
            } else {
                assert(fewer[i] == entries[i]);
                assert(before.contains(i));
                let k = before.index_of(i);
                assert(places[k] == i);
            }
        }
    }
}

/// Everything that is found is an entry of the directory, found under its own
/// name and in the order of the listing, and meets every filter: it is neither
/// hidden nor ignored unless that is asked for, its name matches, it is of the
/// type asked for, empty where only empty entries are, and, if it is a file,
/// strictly within the bounds on its size.
pub proof fn found_entries_meet_every_filter(
    config: SearchConfig,
    layers: Seq<Layer>,
    dir: Seq<char>,
    entries: Seq<DirEntry>,
    facts: Seq<Facts>,
) -> (places: Seq<int>)
    ensures
        places.len() == config.found(layers, dir, entries, facts).len(),
        forall|a: int, b: int|
            0 <= a < b < places.len() ==> #[trigger] places[a] < #[trigger] places[b],
        forall|k: int|
            0 <= k < places.len() ==> {
                let i = #[trigger] places[k];
                let e = entries[i];
                let name = e.name@;
                let file_len = match facts[i].len {
                    Some(n) => n,
                    None => 0,
                };
                let path = if dir.len() == 0 || dir.last() == '/' {
                    dir + name
                } else {
                    dir + seq!['/'] + name
                };
                &&& 0 <= i < entries.len()
                &&& config.found(layers, dir, entries, facts)[k].path == path
                &&& config.found(layers, dir, entries, facts)[k].is_dir == e.is_dir
                &&& !config.hidden && name.len() > 0 ==> name[0] != '.'
                &&& config.respect_gitignore ==> !ignore_files::layers_ignore(
                    layers,
                    path,
                    e.is_dir,
                )
                &&& globs::glob_matches(
                    globs::glob_text(config.pattern),
                    name,
                    !config.case_insensitive,
                )
                &&& config.file_type matches Some(t) ==> {
                    &&& t@ == "f"@ || t@ == "d"@ || t@ == "l"@
                    &&& t@ == "f"@ ==> !e.is_dir && !e.is_symlink
                    &&& t@ == "d"@ ==> e.is_dir
                    &&& t@ == "l"@ ==> e.is_symlink
                }
                &&& config.empty_only && e.is_dir ==> facts[i].childless
                &&& config.empty_only && !e.is_dir ==> facts[i].len == Some(0u64)
                &&& !e.is_dir && !e.is_symlink ==> {
                    &&& config.size_filter matches Some(f) ==> f.min matches Some(min) ==> file_len
                        > min
                    &&& config.size_filter matches Some(f) ==> f.max matches Some(max) ==> file_len
                        < max
                }
            },
{
    lemma_found_places(config, layers, dir, entries, facts);
    let places = found_places(config, layers, dir, entries, facts);
    lemma_letters_differ();
    assert forall|k: int| 0 <= k < places.len() implies ({
        let i = #[trigger] places[k];
        paths::joined(dir, entries[i].name@) == if dir.len() == 0 || dir.last() == '/' {
            dir + entries[i].name@
        } else {
            dir + seq!['/'] + entries[i].name@
        }
    }) by {
        let name = entries[places[k]].name@;
        if dir.len() > 0 && dir.last() != '/' {
            assert(paths::joined(dir, name) =~= dir + seq!['/'] + name);
        }
    }
    places
}

proof fn lemma_letters_differ()
    ensures
        "f"@ != "d"@,
        "f"@ != "l"@,
        "d"@ != "l"@,
{
    reveal_strlit("f");
    reveal_strlit("d");
    reveal_strlit("l");
    assert("f"@[0] == 'f');
    assert("d"@[0] == 'd');
    assert("l"@[0] == 'l');
}

/// Every entry that meets every filter is found.
pub proof fn entries_that_meet_every_filter_are_found(
    config: SearchConfig,
    layers: Seq<Layer>,
    dir: Seq<char>,
    entries: Seq<DirEntry>,
    facts: Seq<Facts>,
    i: int,
)
    requires
        0 <= i < entries.len(),
        config.hidden || entries[i].name@.len() == 0 || entries[i].name@[0] != '.',
        config.respect_gitignore ==> !ignore_files::layers_ignore(
            layers,
            paths::joined(dir, entries[i].name@),
            entries[i].is_dir,
        ),
        globs::glob_matches(
            globs::glob_text(config.pattern),
            entries[i].name@,
            !config.case_insensitive,
        ),
        config.file_type matches Some(t) ==> {
            ||| t@ == "f"@ && !entries[i].is_dir && !entries[i].is_symlink
            ||| t@ == "d"@ && entries[i].is_dir
            ||| t@ == "l"@ && entries[i].is_symlink
        },
        config.empty_only ==> if entries[i].is_dir {
            facts[i].childless
        } else {
            facts[i].len == Some(0u64)
        },
        !entries[i].is_dir && !entries[i].is_symlink ==> {
            &&& config.size_filter matches Some(f) ==> f.min matches Some(min) ==> (
            facts[i].len matches Some(n) && n > min)
            &&& config.size_filter matches Some(f) ==> f.max matches Some(max) ==> match facts[i].len {
                Some(n) => n < max,
                None => 0 < max,
            }
        },
    ensures
        config.found(layers, dir, entries, facts).contains(
            Found { path: paths::joined(dir, entries[i].name@), is_dir: entries[i].is_dir },
        ),
{
    lemma_found_places(config, layers, dir, entries, facts);
    let places = found_places(config, layers, dir, entries, facts);
    assert(config.finds(layers, dir, entries[i], facts[i]));
    let k = places.index_of(i);
    assert(config.found(layers, dir, entries, facts)[k] == (Found {
        path: paths::joined(dir, entries[i].name@),
        is_dir: entries[i].is_dir,
    }));
}

/// The types part the entries: what is found without a type is found under
/// exactly one of them, a symbolic link as such, a directory as such, and
/// anything else as a file. No other type finds anything.
pub proof fn types_part_the_entries(
    config: SearchConfig,
    layers: Seq<Layer>,
    dir: Seq<char>,
    e: DirEntry,
    facts: Facts,
    t: String,
)
    requires
        !(e.is_dir && e.is_symlink),
    ensures
        ({
            let any = SearchConfig { file_type: None, ..config };
            let typed = SearchConfig { file_type: Some(t), ..config };
            let kind = if e.is_symlink {
                "l"@
            } else if e.is_dir {
                "d"@
            } else {
                "f"@
            };
            typed.finds(layers, dir, e, facts) <==> any.finds(layers, dir, e, facts) && t@ == kind
        }),
{
    lemma_letters_differ();
}

/// --max-depth N looks at nothing deeper than N levels below the root: a
/// directory at some depth is walked only if its entries, one level below it,
/// are within the limit; without a limit every directory is. `depth` is that of
/// the directory whose entry is looked at.
pub proof fn entered_directories_are_wanted(
    config: SearchConfig,
    layers: Seq<Layer>,
    dir: Seq<char>,
    depth: int,
    e: DirEntry,
)
    ensures
        config.enters(layers, dir, depth, e) <==> {
            &&& e.is_dir && !e.is_symlink
            &&& config.hidden || e.name@.len() == 0 || e.name@[0] != '.'
            &&& config.respect_gitignore ==> !ignore_files::layers_ignore(
                layers,
                paths::joined(dir, e.name@),
                true,
            )
            &&& !config.ignore_dirs@.contains(e.name@)
            &&& config.max_depth matches Some(max) ==> depth + 2 <= max
        },
        config.walks_depth(depth) <==> (config.max_depth matches Some(max) ==> depth + 1 <= max),
{
}

/// The paths of the directories that are entered are those of the entries that
/// are, and no others.
pub proof fn entered_paths_are_of_entered_entries(
    config: SearchConfig,
    layers: Seq<Layer>,
    dir: Seq<char>,
    depth: int,
    entries: Seq<DirEntry>,
    p: Seq<char>,
)
    ensures
        config.entered(layers, dir, depth, entries).contains(p) <==> exists|i: int|
            0 <= i < entries.len() && config.enters(layers, dir, depth, #[trigger] entries[i]) && p
                == paths::joined(dir, entries[i].name@),
    decreases entries.len(),
{
    let all = config.entered(layers, dir, depth, entries);
    if entries.len() > 0 {
        let n = entries.len() - 1;
        let fewer = entries.drop_last();
        let before = config.entered(layers, dir, depth, fewer);
        entered_paths_are_of_entered_entries(config, layers, dir, depth, fewer, p);
        if all.contains(p) {
            let k = all.index_of(p);
            if k < before.len() {
                assert(before[k] == p);
                let i = choose|i: int|
                    0 <= i < fewer.len() && config.enters(layers, dir, depth, #[trigger] fewer[i])
                        && p == paths::joined(dir, fewer[i].name@);
                assert(entries[i] == fewer[i]);
            } else {
                assert(config.enters(layers, dir, depth, entries[n]));
            }
        }
        if exists|i: int|
            0 <= i < entries.len() && config.enters(layers, dir, depth, #[trigger] entries[i]) && p
                == paths::joined(dir, entries[i].name@) {
            let i = choose|i: int|
                0 <= i < entries.len() && config.enters(layers, dir, depth, #[trigger] entries[i])
                    && p == paths::joined(dir, entries[i].name@);
            if i < n {
                assert(fewer[i] == entries[i]);
                let k = before.index_of(p);
                assert(all[k] == p);
            } else {
                assert(all[all.len() - 1] == p);
            }
        }
    }
}

/// Every entry that is looked at and is no directory counts as a file, however
/// the search is narrowed: only --hidden and the ignore files matter.
pub proof fn files_are_counted_before_filters(
    config: SearchConfig,
    other: SearchConfig,
    layers: Seq<Layer>,
    dir: Seq<char>,
    entries: Seq<DirEntry>,
)
    requires
        config.hidden == other.hidden,
        config.respect_gitignore == other.respect_gitignore,
    ensures
        config.files_seen(layers, dir, entries) == other.files_seen(layers, dir, entries),
        config.hidden && !config.respect_gitignore && (forall|i: int|
            0 <= i < entries.len() ==> !(#[trigger] entries[i]).is_dir) ==> config.files_seen(
            layers,
            dir,
            entries,
        ) == entries.len(),
        (forall|i: int| 0 <= i < entries.len() ==> (#[trigger] entries[i]).is_dir)
            ==> config.files_seen(layers, dir, entries) == 0,
        0 <= config.files_seen(layers, dir, entries) <= entries.len(),
    decreases entries.len(),
{
    if entries.len() > 0 {
        let fewer = entries.drop_last();
        assert(forall|i: int| 0 <= i < fewer.len() ==> fewer[i] == entries[i]);
        files_are_counted_before_filters(config, other, layers, dir, fewer);
        assert(entries.last() == entries[entries.len() - 1]);
    }
}

/// Nothing has to be found out about an entry unless a size or emptiness is
/// asked for, nor of an entry whose name does not match.
pub proof fn facts_are_needed_only_for_size_and_emptiness(config: SearchConfig, e: DirEntry)
    ensures
        !config.empty_only && config.size_filter is None ==> !config.needs_len(e)
            && !config.needs_children(e),
        config.needs_len(e) ==> !e.is_dir,
        config.needs_children(e) ==> e.is_dir,
        config.needs_len(e) || config.needs_children(e) ==> globs::glob_matches(
            globs::glob_text(config.pattern),
            e.name@,
            !config.case_insensitive,
        ),
{
}

/// -n with -i: letter case is disregarded exactly if that is asked for, and
/// nothing but the name, the type and the two options makes a candidate.
pub proof fn candidates_match_by_name_and_type(
    config: SearchConfig,
    other: SearchConfig,
    e: DirEntry,
    f: DirEntry,
)
    requires
        globs::glob_text(config.pattern) == globs::glob_text(other.pattern),
        config.case_insensitive == other.case_insensitive,
        config.file_type is None,
        other.file_type is None,
        e.name@ == f.name@,
    ensures
        config.is_candidate(e) == other.is_candidate(f),
        config.is_candidate(e) == globs::glob_matches(
            globs::glob_text(config.pattern),
            e.name@,
            !config.case_insensitive,
        ),
{
}

/// The directories that are not entered: the usual ones unless --no-ignore is
/// given, and those asked for, whatever else is given.
pub proof fn skipped_directories(no_ignore: bool, extra: Seq<Seq<char>>, name: Seq<char>)
    ensures
        cli::skipped_names(no_ignore, extra).contains(name) <==> (!no_ignore && (name == ".git"@
            || name == "node_modules"@ || name == "__pycache__"@)) || extra.contains(name),
{
    if extra.contains(name) {
        assert(extra.to_set().contains(name));
    }
}

/// `-N` is an upper bound, and `+N` and a bare `N` are the same lower bound.
pub proof fn the_sign_of_a_size_tells_which_bound_it_is(t: Seq<char>, n: u64)
    requires
        t.len() > 0,
        t[0] != '+' && t[0] != '-',
        !text::is_space(t[0]),
        !text::is_space(t.last()),
    ensures
        cli::bound_text(seq!['-'] + t) == t,
        cli::bound_text(seq!['+'] + t) == t,
        cli::bound_text(t) == t,
        cli::bound_filter(seq!['-'] + t, n) == (SizeFilter { min: None, max: Some(n) }),
        cli::bound_filter(seq!['+'] + t, n) == (SizeFilter { min: Some(n), max: None }),
        cli::bound_filter(t, n) == (SizeFilter { min: Some(n), max: None }),
{
    let (minus, plus) = (seq!['-'] + t, seq!['+'] + t);
    assert(minus.last() == t.last() && plus.last() == t.last());
    assert(minus.drop_first() =~= t);
    assert(plus.drop_first() =~= t);
}

/// A file of N bytes or fewer is never found by `+N`, one of N bytes or more
/// never by `-N`, and any other is by either.
pub proof fn bounds_are_strict(f: SizeFilter, len: u64)
    ensures
        f.admits(len) <==> {
            &&& f.min matches Some(min) ==> min < len
            &&& f.max matches Some(max) ==> len < max
        },
{
}

/// The arguments are at fault exactly if the type is none of the three, the
/// pattern does not compile or the size is no amount.
pub proof fn faults_of_the_arguments(args: Args)
    ensures
        cli::args_fault(args) is None <==> {
            &&& args.file_type matches Some(t) ==> t@ == "f"@ || t@ == "d"@ || t@ == "l"@
            &&& globs::glob_fault(args.name@) is None
            &&& args.size matches Some(s) ==> crate::amounts::amount(cli::bound_text(s@)) is Bytes
        },
{
}

/// What is considered of an entry decides about it: it is found exactly if it
/// is a candidate and passes, whatever was not asked for, and it is entered
/// under its own path, one level deeper, with the layers of its directory.
pub proof fn considerations_decide(
    c: Consideration,
    config: SearchConfig,
    layers: Seq<Layer>,
    dir: Seq<char>,
    depth: int,
    e: DirEntry,
    known: Facts,
    facts: Facts,
)
    requires
        c.is_for(config, layers, dir, depth, e),
        c.needs_len ==> known.len == facts.len,
        c.needs_children ==> known.childless == facts.childless,
    ensures
        c.candidate && config.passes(e, known) <==> config.finds(layers, dir, e, facts),
        c.subtask is Some ==> e.is_dir && !e.is_symlink && c.seen,
        c.subtask matches Some(t) ==> t.path@ == paths::joined(dir, e.name@) && t.depth == depth + 1
            && ignore_files::layers((*t.ignore_stack)@) == layers,
        c.subtask is None && c.seen && e.is_dir && !e.is_symlink && !config.ignore_dirs@.contains(
            e.name@,
        ) ==> (config.max_depth matches Some(max) && max <= depth + 1),
{
}

/// --hidden only ever adds to what is found.
pub proof fn hidden_only_adds(
    config: SearchConfig,
    layers: Seq<Layer>,
    dir: Seq<char>,
    e: DirEntry,
    facts: Facts,
)
    ensures
        ({
            let without = SearchConfig { hidden: false, ..config };
            let with = SearchConfig { hidden: true, ..config };
            &&& without.finds(layers, dir, e, facts) <==> with.finds(layers, dir, e, facts) && !(
            e.name@.len() > 0 && e.name@[0] == '.')
        }),
{
}

/// --no-ignore only ever adds to what is found: exactly what the ignore files
/// leave out.
pub proof fn ignore_files_only_leave_out(
    config: SearchConfig,
    layers: Seq<Layer>,
    dir: Seq<char>,
    e: DirEntry,
    facts: Facts,
)
    ensures
        ({
            let obeying = SearchConfig { respect_gitignore: true, ..config };
            let other = SearchConfig { respect_gitignore: false, ..config };
            obeying.finds(layers, dir, e, facts) <==> other.finds(layers, dir, e, facts)
                && !ignore_files::layers_ignore(layers, paths::joined(dir, e.name@), e.is_dir)
        }),
{
}

/// White space around a size makes no difference, neither to the bound that it
/// is nor to what is wrong with it.
pub proof fn blanks_around_a_size_are_disregarded(s: Seq<char>, c: char, n: u64)
    requires
        text::is_space(c),
    ensures
        cli::bound_text(s.push(c)) == cli::bound_text(s),
        cli::bound_text(seq![c] + s) == cli::bound_text(s),
        cli::bound_filter(s.push(c), n) == cli::bound_filter(s, n),
        cli::bound_filter(seq![c] + s, n) == cli::bound_filter(s, n),
{
    text_laws::blanks_at_the_ends_make_no_difference(s, c);
}

} // verus!
