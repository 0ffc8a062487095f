//! What the options of a search mean, and how they go together.

use crate::argrep::cli;
use crate::argrep::cli::Args;
use crate::argrep::config::SearchConfig;
use crate::argrep::matcher;
use crate::argrep::matcher::MatchOptions;
use crate::argrep::types;
use crate::globs;
use glob::Pattern;
use vstd::prelude::*;

verus! {

/// A query is the pattern of its search, -F escapes it, -w has it match whole
/// words and -x whole lines, around whatever the other options make of it. -i
/// leaves the pattern as it is.
pub proof fn options_wrap_the_query(query: Seq<char>, opts: MatchOptions)
    ensures
        ({
            let plain = MatchOptions { whole_word: false, whole_line: false, ..opts };
            let as_words = MatchOptions { whole_word: true, whole_line: false, ..opts };
            let any_line = MatchOptions { whole_line: false, ..opts };
            let as_lines = MatchOptions { whole_line: true, ..opts };
            let base = matcher::query_pattern(query, plain);
            &&& !opts.fixed_strings ==> base == query
            &&& opts.fixed_strings ==> base == matcher::escaped(query)
            &&& matcher::query_pattern(query, as_words) == "\\b(?:"@ + base + ")\\b"@
            &&& matcher::query_pattern(query, as_lines) == "^(?:"@ + matcher::query_pattern(
                query,
                any_line,
            ) + ")$"@
            &&& matcher::query_pattern(query, MatchOptions { ignore_case: true, ..opts })
                == matcher::query_pattern(query, MatchOptions { ignore_case: false, ..opts })
        }),
{
}

/// A query is refused exactly if the pattern made of it does not compile, or,
/// unless it is taken literally, the query by itself does not; what is wrong
/// with the query itself is then what is told.
pub proof fn queries_are_refused_by_themselves(query: Seq<char>, opts: MatchOptions)
    ensures
        matcher::query_fault(query, opts) is None <==> {
            &&& opts.fixed_strings || matcher::regex_fault(query, opts.ignore_case) is None
            &&& matcher::regex_fault(
                matcher::query_pattern(query, opts),
                opts.ignore_case,
            ) is None
        },
        !opts.fixed_strings && matcher::regex_fault(query, opts.ignore_case) is Some ==> matcher::query_fault(query, opts)
            == matcher::regex_fault(query, opts.ignore_case),
{
}

/// A text is escaped character by character, each by itself: a backslash comes
/// before each that means something in a pattern, and nothing else changes.
pub proof fn texts_are_escaped_in_parts(a: Seq<char>, b: Seq<char>, c: char)
    ensures
        matcher::escaped(a + b) == matcher::escaped(a) + matcher::escaped(b),
        matcher::escaped(seq![c]) == if matcher::is_meta(c) {
            seq!['\\', c]
        } else {
            seq![c]
        },
        'a' <= c <= 'z' || 'A' <= c <= 'Z' || '0' <= c <= '9' || c == ' ' || c == '_' || c == '/'
            ==> matcher::escaped(seq![c]) == seq![c],
        c == '.' || c == '*' || c == '(' || c == '[' || c == '\\' || c == '|' || c == '$' || c
            == '^' || c == '+' || c == '?' || c == '{' ==> matcher::escaped(seq![c])
            == seq!['\\', c],
    decreases b.len(),
{
    if b.len() == 0 {
        assert(a + b =~= a);
        assert(matcher::escaped(a) + matcher::escaped(b) =~= matcher::escaped(a));
    } else {
        texts_are_escaped_in_parts(a, b.drop_last(), c);
        assert((a + b).drop_last() =~= a + b.drop_last());
        assert((a + b).last() == b.last());
        assert(matcher::escaped(a + b) =~= matcher::escaped(a) + matcher::escaped(b));
    }
    let one = seq![c];
    assert(one.drop_last() =~= Seq::<char>::empty());
    assert(matcher::escaped(one.drop_last()) =~= Seq::<char>::empty());
    assert(matcher::escaped(one) =~= if matcher::is_meta(c) {
        seq!['\\', c]
    } else {
        seq![c]
    });
}

/// At most one of -l, -L and -c may be given, and not -o together with -v;
/// nothing else is refused.
pub proof fn flags_that_exclude_each_other(args: Args)
    ensures
        cli::flags_fault(args) is None <==> {
            &&& !(args.files_with_matches && args.files_without_match)
            &&& !(args.files_with_matches && args.count_per_file)
            &&& !(args.files_without_match && args.count_per_file)
            &&& !(args.only_matching && args.invert)
        },
{
}

/// An entry with a wildcard in it.
spec fn has_wildcard(s: Seq<char>) -> bool {
    s.contains('*') || s.contains('?') || s.contains('[')
}

proof fn lemma_is_glob(s: Seq<char>)
    ensures
        cli::is_glob(s) == has_wildcard(s),
{
    if cli::is_glob(s) {
        let i = choose|i: int|
            0 <= i < s.len() && (#[trigger] s[i] == '*' || s[i] == '?' || s[i] == '[');
        assert(s.contains(s[i]));
    }
    if s.contains('*') {
        assert(s[s.index_of('*')] == '*');
    }
    if s.contains('?') {
        assert(s[s.index_of('?')] == '?');
    }
    if s.contains('[') {
        assert(s[s.index_of('[')] == '[');
    }
}

proof fn lemma_entries(entries: Seq<Seq<char>>, s: Seq<char>)
    ensures
        cli::name_entries(entries).contains(s) <==> entries.contains(s) && !has_wildcard(s),
        cli::glob_entries(entries).contains(s) <==> entries.contains(s) && has_wildcard(s),
    decreases entries.len(),
{
    lemma_is_glob(s);
    if entries.len() > 0 {
        let fewer = entries.drop_last();
        let last = entries.last();
        lemma_entries(fewer, s);
        lemma_is_glob(last);
        assert(entries.contains(s) <==> fewer.contains(s) || s == last) by {
            if entries.contains(s) {
                let i = entries.index_of(s);
                if i < fewer.len() {
                    assert(fewer[i] == s);
                }
            }
            if fewer.contains(s) {
                assert(entries[fewer.index_of(s)] == s);
            }
            if s == last {
                assert(entries[entries.len() - 1] == s);
            }
        }
        let (all, before) = (cli::glob_entries(entries), cli::glob_entries(fewer));
        if all.contains(s) {
            let i = all.index_of(s);
            if i < before.len() {
                assert(before[i] == s);
            }
        }
        if before.contains(s) {
            assert(all[before.index_of(s)] == s);
        }
        if cli::is_glob(last) {
            assert(all[all.len() - 1] == last);
        }
    }
}

/// Directories are skipped by name: the four usual ones unless --no-ignore is
/// given, and every one asked for without a wildcard in it. Those with a
/// wildcard are patterns.
pub proof fn skipped_directories(no_ignore: bool, extra: Seq<Seq<char>>, name: Seq<char>)
    ensures
        cli::skipped_names(no_ignore, extra).contains(name) <==> {
            ||| !no_ignore && (name == ".git"@ || name == "node_modules"@ || name
                == "__pycache__"@ || name == "target"@)
            ||| extra.contains(name) && !name.contains('*') && !name.contains('?')
                && !name.contains('[')
        },
        cli::glob_entries(extra).contains(name) <==> extra.contains(name) && (name.contains('*')
            || name.contains('?') || name.contains('[')),
{
    lemma_entries(extra, name);
}

proof fn lemma_globs_fault(flag: Seq<char>, texts: Seq<Seq<char>>)
    ensures
        cli::globs_fault(flag, texts) is None <==> forall|t: Seq<char>| #[trigger]
            texts.contains(t) ==> globs::glob_fault(t) is None,
    decreases texts.len(),
{
    if texts.len() > 0 {
        let fewer = texts.drop_last();
        lemma_globs_fault(flag, fewer);
        assert(texts.contains(texts.last())) by {
            assert(texts[texts.len() - 1] == texts.last());
        }
        assert forall|t: Seq<char>| #[trigger] fewer.contains(t) implies texts.contains(t) by {
            assert(texts[fewer.index_of(t)] == t);
        }
        assert forall|t: Seq<char>| #[trigger] texts.contains(t) implies fewer.contains(t) || t
            == texts.last() by {
            let i = texts.index_of(t);
            if i < fewer.len() {
                assert(fewer[i] == t);
            }
        }
    }
}

/// The patterns of the built-in types, by name; any other name is that of none.
pub proof fn built_in_types(name: Seq<char>)
    ensures
        types::globs_of(types::all_types(), name) == if name == "rust"@ {
            Some(seq!["*.rs"@])
        } else if name == "python"@ {
            Some(seq!["*.py"@, "*.pyi"@])
        } else if name == "javascript"@ {
            Some(seq!["*.js"@, "*.jsx"@, "*.mjs"@, "*.cjs"@])
        } else if name == "typescript"@ {
            Some(seq!["*.ts"@, "*.tsx"@])
        } else if name == "json"@ {
            Some(seq!["*.json"@])
        } else if name == "yaml"@ {
            Some(seq!["*.yaml"@, "*.yml"@])
        } else if name == "toml"@ {
            Some(seq!["*.toml"@])
        } else if name == "markdown"@ {
            Some(seq!["*.md"@])
        } else if name == "shell"@ {
            Some(seq!["*.sh"@, "*.bash"@, "*.zsh"@])
        } else {
            None
        },
{
    let all = types::all_types();
    lemma_lookup(all, name, 0);
    lemma_lookup(all, name, 1);
    lemma_lookup(all, name, 2);
    lemma_lookup(all, name, 3);
    lemma_lookup(all, name, 4);
    lemma_lookup(all, name, 5);
    lemma_lookup(all, name, 6);
    lemma_lookup(all, name, 7);
    lemma_lookup(all, name, 8);
    assert(all.skip(0) =~= all);
    assert(all.skip(9).len() == 0);
}

proof fn lemma_lookup(all: Seq<types::FileTypeView>, name: Seq<char>, k: int)
    requires
        0 <= k < all.len(),
    ensures
        types::globs_of(all.skip(k), name) == if all[k].name == name {
            Some(all[k].globs)
        } else {
            types::globs_of(all.skip(k + 1), name)
        },
{
    assert(all.skip(k)[0] == all[k]);
    assert(all.skip(k).drop_first() =~= all.skip(k + 1));
}

/// The patterns of several types are those of each of them, and no others.
pub proof fn types_stand_for_their_patterns(names: Seq<Seq<char>>, t: Seq<char>)
    ensures
        types::expanded(names).contains(t) <==> exists|i: int|
            0 <= i < names.len() && (types::globs_of(
                types::all_types(),
                #[trigger] names[i],
            ) matches Some(g) && g.contains(t)),
        types::first_unknown(names) is None <==> forall|i: int|
            0 <= i < names.len() ==> types::globs_of(
                types::all_types(),
                #[trigger] names[i],
            ) is Some,
        types::first_unknown(names) matches Some(n) ==> names.contains(n) && types::globs_of(
            types::all_types(),
            n,
        ) is None,
    decreases names.len(),
{
    let all = types::expanded(names);
    if names.len() > 0 {
        let n = names.len() - 1;
        let fewer = names.drop_last();
        types_stand_for_their_patterns(fewer, t);
        let before = types::expanded(fewer);
        let own = types::globs_of(types::all_types(), names[n]);
        assert forall|i: int| 0 <= i < n implies fewer[i] == #[trigger] names[i] by {}
        if all.contains(t) {
            let k = all.index_of(t);
            if k < before.len() {
                assert(before[k] == t);
                let i = choose|i: int|
                    0 <= i < fewer.len() && (types::globs_of(
                        types::all_types(),
                        #[trigger] fewer[i],
                    ) matches Some(g) && g.contains(t));
                assert(names[i] == fewer[i]);
            } else {
                assert(own->0[k - before.len()] == t);
                assert(own->0.contains(t));
            }
        }
        if exists|i: int|
            0 <= i < names.len() && (types::globs_of(
                types::all_types(),
                #[trigger] names[i],
            ) matches Some(g) && g.contains(t)) {
            let i = choose|i: int|
                0 <= i < names.len() && (types::globs_of(
                    types::all_types(),
                    #[trigger] names[i],
                ) matches Some(g) && g.contains(t));
            if i < n {
                assert(fewer[i] == names[i]);
                let k = before.index_of(t);
                assert(all[k] == t);
            } else {
                let k = own->0.index_of(t);
                assert(all[before.len() + k] == t);
            }
        }
        if types::first_unknown(names) is None {
            assert forall|i: int| 0 <= i < names.len() implies types::globs_of(
                types::all_types(),
                #[trigger] names[i],
            ) is Some by {
                if i < n {
                    assert(fewer[i] == names[i]);
                }
            }
        } else if types::first_unknown(fewer) is Some {
            let u = types::first_unknown(fewer)->0;
            let k = fewer.index_of(u);
            assert(names[k] == u);
        } else {
            assert(names[n] == types::first_unknown(names)->0);
        }
        if forall|i: int|
            0 <= i < names.len() ==> types::globs_of(
                types::all_types(),
                #[trigger] names[i],
            ) is Some {
            assert forall|i: int| 0 <= i < fewer.len() implies types::globs_of(
                types::all_types(),
                #[trigger] fewer[i],
            ) is Some by {
                assert(fewer[i] == names[i]);
            }
        }
    }
}

/// The arguments of a search are accepted exactly if the query can be searched
/// for, every pattern compiles, those of the directories to skip only where
/// they hold a wildcard, and every type is known.
pub proof fn arguments_that_are_accepted(args: Args, query: Seq<char>)
    ensures
        cli::config_fault(args, query) is None <==> {
            &&& matcher::query_fault(
                query,
                MatchOptions {
                    fixed_strings: args.fixed_strings,
                    ignore_case: args.ignore_case,
                    whole_word: args.whole_word,
                    whole_line: args.whole_line,
                },
            ) is None
            &&& forall|t: Seq<char>| #[trigger]
                args.exclude_dir.deep_view().contains(t) && (t.contains('*') || t.contains('?')
                    || t.contains('[')) ==> globs::glob_fault(t) is None
            &&& args.include_pattern matches Some(p) ==> globs::glob_fault(p@) is None
            &&& forall|t: Seq<char>| #[trigger]
                args.exclude.deep_view().contains(t) ==> globs::glob_fault(t) is None
            &&& forall|i: int|
                0 <= i < args.types.deep_view().len() ==> types::globs_of(
                    types::all_types(),
                    #[trigger] args.types.deep_view()[i],
                ) is Some
            &&& forall|i: int|
                0 <= i < args.type_not.deep_view().len() ==> types::globs_of(
                    types::all_types(),
                    #[trigger] args.type_not.deep_view()[i],
                ) is Some
        },
{
    let dirs = args.exclude_dir.deep_view();
    let patterns = cli::glob_entries(dirs);
    lemma_globs_fault("--exclude-dir"@, patterns);
    lemma_globs_fault("--exclude"@, args.exclude.deep_view());
    types_stand_for_their_patterns(args.types.deep_view(), seq![]);
    types_stand_for_their_patterns(args.type_not.deep_view(), seq![]);
    assert forall|t: Seq<char>| #[trigger] patterns.contains(t) == (dirs.contains(t)
        && has_wildcard(t)) by {
        lemma_entries(dirs, t);
    }
    assert((forall|t: Seq<char>| #[trigger]
        patterns.contains(t) ==> globs::glob_fault(t) is None) == (forall|t: Seq<char>| #[trigger]
        dirs.contains(t) && (t.contains('*') || t.contains('?') || t.contains('['))
            ==> globs::glob_fault(t) is None)) by {
        if forall|t: Seq<char>| #[trigger] patterns.contains(t) ==> globs::glob_fault(t) is None {
            assert forall|t: Seq<char>| #[trigger]
                dirs.contains(t) && (t.contains('*') || t.contains('?') || t.contains(
                    '[',
                )) implies globs::glob_fault(t) is None by {
                assert(patterns.contains(t));
            }
        } else {
            let t = choose|t: Seq<char>| #[trigger]
                patterns.contains(t) && globs::glob_fault(t) is Some;
            assert(dirs.contains(t) && has_wildcard(t));
        }
    }
}

/// A pattern of the list was made from this text.
pub open spec fn is_among(patterns: Seq<Pattern>, t: Seq<char>) -> bool {
    exists|i: int| 0 <= i < patterns.len() && globs::glob_text(#[trigger] patterns[i]) == t
}

proof fn lemma_compiled(patterns: Seq<Pattern>, texts: Seq<Seq<char>>, t: Seq<char>)
    requires
        types::compiled_from(patterns, texts),
    ensures
        is_among(patterns, t) <==> texts.contains(t),
{
    if texts.contains(t) {
        let i = texts.index_of(t);
        assert(globs::glob_text(patterns[i]) == t);
    }
    if is_among(patterns, t) {
        let i = choose|i: int|
            0 <= i < patterns.len() && globs::glob_text(#[trigger] patterns[i]) == t;
        assert(texts[i] == t);
    }
}

/// A configuration does what the arguments ask for: the matcher disregards
/// letter case exactly under -i, every flag is passed on as it was given, the
/// limits and the context are those asked for, and the filters hold the
/// patterns given and no others. `t` is any text.
pub proof fn configurations_follow_the_arguments(
    c: SearchConfig,
    args: Args,
    query: Seq<char>,
    t: Seq<char>,
)
    requires
        cli::is_config_for(c, args, query),
    ensures
        matcher::regex_folds_case(c.regex) == args.ignore_case,
        matcher::regex_pattern(c.regex) == matcher::query_pattern(
            query,
            MatchOptions {
                fixed_strings: args.fixed_strings,
                ignore_case: args.ignore_case,
                whole_word: args.whole_word,
                whole_line: args.whole_line,
            },
        ),
        c.ignore_case == args.ignore_case && c.invert == args.invert && c.quiet == args.quiet,
        c.line_number == args.line_number && c.debug == args.debug && c.hidden == args.hidden,
        c.files_with_matches == args.files_with_matches,
        c.files_without_match == args.files_without_match,
        c.count_per_file == args.count_per_file && c.only_matching == args.only_matching,
        c.files_only == args.files && c.search_compressed == args.search_compressed,
        c.respect_gitignore == !args.no_ignore,
        args.max_count is None <==> c.max_count is None,
        args.max_count matches Some(n) ==> n <= usize::MAX ==> c.max_count == Some(n as usize),
        args.only_matching ==> c.before_context == 0 && c.after_context == 0,
        !args.only_matching && args.before_context is Some ==> c.before_context
            == args.before_context->0,
        !args.only_matching && args.after_context is Some ==> c.after_context
            == args.after_context->0,
        !args.only_matching && args.before_context is None && args.context is Some
            ==> c.before_context == args.context->0,
        !args.only_matching && args.after_context is None && args.context is Some
            ==> c.after_context == args.context->0,
        args.before_context is None && args.context is None ==> c.before_context == 0,
        args.after_context is None && args.context is None ==> c.after_context == 0,
        c.ignore_dirs@.contains(t) <==> {
            ||| !args.no_ignore && (t == ".git"@ || t == "node_modules"@ || t == "__pycache__"@ || t
                == "target"@)
            ||| args.exclude_dir.deep_view().contains(t) && !t.contains('*') && !t.contains('?')
                && !t.contains('[')
        },
        is_among(c.ignore_dir_patterns@, t) <==> args.exclude_dir.deep_view().contains(t) && (
        t.contains('*') || t.contains('?') || t.contains('[')),
        is_among(c.exclude_patterns@, t) <==> args.exclude.deep_view().contains(t),
        args.include_pattern is None <==> c.include_pattern is None,
        args.include_pattern matches Some(p) ==> globs::glob_text(c.include_pattern->0) == p@,
        is_among(c.type_patterns@, t) <==> exists|i: int|
            0 <= i < args.types.deep_view().len() && (types::globs_of(
                types::all_types(),
                #[trigger] args.types.deep_view()[i],
            ) matches Some(g) && g.contains(t)),
        is_among(c.type_not_patterns@, t) <==> exists|i: int|
            0 <= i < args.type_not.deep_view().len() && (types::globs_of(
                types::all_types(),
                #[trigger] args.type_not.deep_view()[i],
            ) matches Some(g) && g.contains(t)),
{
    let dirs = args.exclude_dir.deep_view();
    lemma_entries(dirs, t);
    lemma_compiled(c.ignore_dir_patterns@, cli::glob_entries(dirs), t);
    lemma_compiled(c.exclude_patterns@, args.exclude.deep_view(), t);
    lemma_compiled(c.type_patterns@, types::expanded(args.types.deep_view()), t);
    lemma_compiled(c.type_not_patterns@, types::expanded(args.type_not.deep_view()), t);
    types_stand_for_their_patterns(args.types.deep_view(), t);
    types_stand_for_their_patterns(args.type_not.deep_view(), t);
}

/// Of several names, the first that is not that of a type is complained of.
pub proof fn the_first_unknown_type_is_named(names: Seq<Seq<char>>)
    requires
        names.len() > 0,
    ensures
        types::first_unknown(names) == if types::globs_of(types::all_types(), names[0]) is None {
            Some(names[0])
        } else {
            types::first_unknown(names.skip(1))
        },
    decreases names.len(),
{
    let fewer = names.drop_last();
    let rest = names.skip(1);
    if fewer.len() == 0 {
        assert(types::first_unknown(fewer) is None);
        assert(types::first_unknown(rest) is None);
    } else {
        the_first_unknown_type_is_named(fewer);
        assert(fewer.skip(1) =~= rest.drop_last());
        assert(rest.last() == names.last());
    }
}

/// Of several patterns for an option, the first that does not compile is
/// complained of, with the option, its text and what is wrong with it.
pub proof fn the_first_bad_pattern_is_named(flag: Seq<char>, texts: Seq<Seq<char>>)
    requires
        texts.len() > 0,
    ensures
        cli::globs_fault(flag, texts) == match globs::glob_fault(texts[0]) {
            Some(fault) => Some(
                "Invalid glob pattern for "@ + flag + ": '"@ + texts[0] + "': "@ + fault,
            ),
            None => cli::globs_fault(flag, texts.skip(1)),
        },
    decreases texts.len(),
{
    let fewer = texts.drop_last();
    let rest = texts.skip(1);
    if fewer.len() == 0 {
        assert(cli::globs_fault(flag, fewer) is None);
        assert(cli::globs_fault(flag, rest) is None);
    } else {
        the_first_bad_pattern_is_named(flag, fewer);
        assert(fewer.skip(1) =~= rest.drop_last());
        assert(rest.last() == texts.last());
    }
}

/// Where several arguments are at fault, the query is complained of first, and
/// then the patterns of --exclude-dir, --include and --exclude, each only where
/// those before it are in order.
pub proof fn faults_are_told_in_turn(args: Args, query: Seq<char>)
    ensures
        ({
            let opts = MatchOptions {
                fixed_strings: args.fixed_strings,
                ignore_case: args.ignore_case,
                whole_word: args.whole_word,
                whole_line: args.whole_line,
            };
            let told = cli::config_fault(args, query);
            let dirs = cli::globs_fault(
                "--exclude-dir"@,
                cli::glob_entries(args.exclude_dir.deep_view()),
            );
            let fine = matcher::query_fault(query, opts) is None;
            let include_fine = args.include_pattern is Some ==> globs::glob_fault(
                args.include_pattern->0@,
            ) is None;
            &&& matcher::query_fault(query, opts) matches Some(fault) ==> told == Some(
                "Invalid pattern '"@ + query + "': "@ + fault,
            )
            &&& fine && dirs is Some ==> told == dirs
            &&& fine && dirs is None && !include_fine ==> told == Some(
                "Invalid glob pattern for --include: '"@ + args.include_pattern->0@ + "': "@
                    + globs::glob_fault(args.include_pattern->0@)->0,
            )
            &&& fine && dirs is None && include_fine && cli::globs_fault(
                "--exclude"@,
                args.exclude.deep_view(),
            ) is Some ==> told == cli::globs_fault("--exclude"@, args.exclude.deep_view())
        }),
{
    if args.include_pattern is Some {
        let p = args.include_pattern->0@;
        reveal_strlit("Invalid glob pattern for ");
        reveal_strlit("Invalid glob pattern for --include: '");
        reveal_strlit("--include");
        reveal_strlit(": '");
        assert("Invalid glob pattern for "@ + "--include"@ + ": '"@
            =~= "Invalid glob pattern for --include: '"@);
    }
}

} // verus!
