//! The command line of `argrep`.

use crate::argrep::config::{SearchConfig, SearchStats};
use crate::argrep::matcher;
use crate::argrep::matcher::MatchOptions;
use crate::argrep::types;
use crate::decimal;
use crate::globs;
use crate::numbers;
use crate::text;
use glob::Pattern;
use regex::Regex;
use vstd::hash_set::StringHashSet;
use vstd::prelude::*;
use vstd::string::*;

verus! {

/// Directories that are skipped unless --no-ignore is given.
pub const DEFAULT_IGNORES: [&'static str; 4] = [".git", "node_modules", "__pycache__", "target"];

/// How many workers there may be.
pub const MAX_JOBS: u16 = 128;

/// How many lines of context there may be.
pub const MAX_CONTEXT_LINES: usize = 100_000;

/// The arguments of `argrep`.
pub struct Args {
    /// The query, or the path if it stands alone under --files.
    pub query: Option<String>,
    /// The file or directory to search.
    pub path: Option<String>,
    /// -i
    pub ignore_case: bool,
    /// -F
    pub fixed_strings: bool,
    /// -w
    pub whole_word: bool,
    /// -x
    pub whole_line: bool,
    /// -q
    pub quiet: bool,
    /// -m
    pub max_count: Option<u64>,
    /// -n
    pub line_number: bool,
    /// -j
    pub jobs: usize,
    /// -d
    pub debug: bool,
    /// --stats
    pub stats: bool,
    /// -v
    pub invert: bool,
    /// -o
    pub only_matching: bool,
    /// -l
    pub files_with_matches: bool,
    /// -L
    pub files_without_match: bool,
    /// -c
    pub count_per_file: bool,
    /// --include
    pub include_pattern: Option<String>,
    /// --exclude
    pub exclude: Vec<String>,
    /// --type
    pub types: Vec<String>,
    /// --type-not
    pub type_not: Vec<String>,
    /// -B
    pub before_context: Option<usize>,
    /// -A
    pub after_context: Option<usize>,
    /// -C
    pub context: Option<usize>,
    /// --exclude-dir, or --ignore
    pub exclude_dir: Vec<String>,
    /// --no-ignore
    pub no_ignore: bool,
    /// --hidden
    pub hidden: bool,
    /// --files
    pub files: bool,
    /// -z
    pub search_compressed: bool,
}

impl Args {
    /// The arguments where none are given, on a machine with so many
    /// processors.
    pub fn new(cpus: usize) -> (r: Self)
        ensures
            r.query is None && r.path is None,
            1 <= r.jobs <= 16,
            r.jobs == if cpus / 2 < 1 {
                1
            } else if cpus / 2 > 16 {
                16
            } else {
                cpus / 2
            },
            !r.ignore_case && !r.fixed_strings && !r.whole_word && !r.whole_line && !r.quiet,
            !r.line_number && !r.debug && !r.stats && !r.invert && !r.only_matching,
            !r.files_with_matches && !r.files_without_match && !r.count_per_file,
            !r.no_ignore && !r.hidden && !r.files && !r.search_compressed,
            r.max_count is None,
            r.include_pattern is None,
            r.exclude@.len() == 0 && r.types@.len() == 0 && r.type_not@.len() == 0,
            r.exclude_dir@.len() == 0,
            r.before_context is None && r.after_context is None && r.context is None,
    {
        Args {
            query: None,
            path: None,
            ignore_case: false,
            fixed_strings: false,
            whole_word: false,
            whole_line: false,
            quiet: false,
            max_count: None,
            line_number: false,
            jobs: numbers::default_jobs(cpus),
            debug: false,
            stats: false,
            invert: false,
            only_matching: false,
            files_with_matches: false,
            files_without_match: false,
            count_per_file: false,
            include_pattern: None,
            exclude: Vec::new(),
            types: Vec::new(),
            type_not: Vec::new(),
            before_context: None,
            after_context: None,
            context: None,
            exclude_dir: Vec::new(),
            no_ignore: false,
            hidden: false,
            files: false,
            search_compressed: false,
        }
    }
}

/// Reads a number of lines of context.
pub fn context_lines_parser(value: &str) -> (r: Result<usize, String>)
    ensures
        match numbers::number(value@) {
            Some(n) if n <= MAX_CONTEXT_LINES => r matches Ok(v) && v == n,
            Some(n) if n <= usize::MAX => r matches Err(e) && e@
                == "context is too large; maximum is "@ + decimal::decimal(
                MAX_CONTEXT_LINES as int,
            ),
            _ => r matches Err(e) && e@ == "context must be a non-negative integer"@,
        },
{
    match numbers::parse_number(value) {
        Some(n) => if n <= MAX_CONTEXT_LINES as u64 {
            return Ok(n as usize);
        } else if n <= usize::MAX as u64 {
            return Err(
                "context is too large; maximum is ".to_string().concat(
                    decimal::to_decimal(MAX_CONTEXT_LINES as u128).as_str(),
                ),
            );
        },
        None => {},
    }
    Err("context must be a non-negative integer".to_string())
}

/// Reads the number for -m: a whole number, at least one.
pub fn max_count_parser(value: &str) -> (r: Result<u64, String>)
    ensures
        match r {
            Ok(n) => numbers::number(value@) == Some(n as int) && n >= 1,
            Err(e) => e@ == value@ + " is not in 1.."@ && (numbers::number(value@) matches Some(n)
                ==> !(1 <= n <= u64::MAX)),
        },
{
    match numbers::parse_number(value) {
        Some(n) => if n >= 1 {
            return Ok(n);
        },
        None => {},
    }
    Err(value.to_string().concat(" is not in 1.."))
}

/// Two flags that exclude each other.
pub open spec fn clash(a: Seq<char>, b: Seq<char>) -> Seq<char> {
    "the argument '"@ + a + "' cannot be used with '"@ + b + "'"@
}

/// What is wrong with the flags taken together, if anything: -l, -L and -c
/// exclude each other, and so do -o and -v.
pub open spec fn flags_fault(args: Args) -> Option<Seq<char>> {
    if args.files_with_matches && args.count_per_file {
        Some(clash("--files-with-matches"@, "--count"@))
    } else if args.files_with_matches && args.files_without_match {
        Some(clash("--files-with-matches"@, "--files-without-match"@))
    } else if args.files_without_match && args.count_per_file {
        Some(clash("--files-without-match"@, "--count"@))
    } else if args.only_matching && args.invert {
        Some(clash("--only-matching"@, "--invert"@))
    } else {
        None
    }
}

fn write_clash(a: &str, b: &str) -> (r: String)
    ensures
        r@ == clash(a@, b@),
{
    "the argument '".to_string().concat(a).concat("' cannot be used with '").concat(b).concat("'")
}

/// Checks the flags that exclude each other.
pub fn check_flags(args: &Args) -> (r: Result<(), String>)
    ensures
        match r {
            Ok(_) => flags_fault(*args) is None,
            Err(e) => flags_fault(*args) == Some(e@),
        },
{
    if args.files_with_matches && args.count_per_file {
        Err(write_clash("--files-with-matches", "--count"))
    } else if args.files_with_matches && args.files_without_match {
        Err(write_clash("--files-with-matches", "--files-without-match"))
    } else if args.files_without_match && args.count_per_file {
        Err(write_clash("--files-without-match", "--count"))
    } else if args.only_matching && args.invert {
        Err(write_clash("--only-matching", "--invert"))
    } else {
        Ok(())
    }
}

/// What the positional arguments mean.
pub struct Subject {
    pub query: String,
    pub path: Option<String>,
}

/// There is a text, and it is this one.
pub open spec fn is_text(o: Option<String>, s: Seq<char>) -> bool {
    o is Some && o->0@ == s
}

/// Tells the query and the path apart. Under --files no query is needed, and an
/// argument that stands alone is the path; otherwise there is no search
/// without a query.
pub fn resolve_subject(args: &Args) -> (r: Option<Subject>)
    ensures
        match r {
            None => !args.files && args.query is None,
            Some(s) => {
                &&& args.files || args.query is Some
                &&& match (args.query, args.path) {
                    (Some(q), Some(p)) => s.query@ == q@ && is_text(s.path, p@),
                    (Some(q), None) => if args.files {
                        s.query@.len() == 0 && is_text(s.path, q@)
                    } else {
                        s.query@ == q@ && s.path is None
                    },
                    (None, Some(p)) => s.query@.len() == 0 && is_text(s.path, p@),
                    (None, None) => s.query@.len() == 0 && s.path is None,
                }
            },
        },
{
    match (&args.query, &args.path) {
        (Some(q), Some(p)) => Some(Subject { query: q.clone(), path: Some(p.clone()) }),
        (Some(q), None) => if args.files {
            Some(Subject { query: String::new(), path: Some(q.clone()) })
        } else {
            Some(Subject { query: q.clone(), path: None })
        },
        (None, Some(p)) => if args.files {
            Some(Subject { query: String::new(), path: Some(p.clone()) })
        } else {
            None
        },
        (None, None) => if args.files {
            Some(Subject { query: String::new(), path: None })
        } else {
            None
        },
    }
}

/// Whether standard input is searched: if the path says so, or if there is no
/// path and standard input is not a terminal. Listing files never reads it.
pub fn uses_stdin(args: &Args, path: &Option<String>, stdin_is_terminal: bool) -> (b: bool)
    ensures
        b == (!args.files && match *path {
            Some(p) => p@ == "-"@,
            None => !stdin_is_terminal,
        }),
{
    if args.files {
        return false;
    }
    match path {
        Some(p) => *p == "-".to_string(),
        None => !stdin_is_terminal,
    }
}

/// The names of the directories that are skipped by default.
pub open spec fn default_names() -> Set<Seq<char>> {
    set![".git"@, "node_modules"@, "__pycache__"@, "target"@]
}

/// An entry is a pattern if it holds a character that means something in one.
pub open spec fn is_glob(entry: Seq<char>) -> bool {
    exists|i: int|
        0 <= i < entry.len() && (#[trigger] entry[i] == '*' || entry[i] == '?' || entry[i] == '[')
}

fn has_wildcard(entry: &str) -> (b: bool)
    ensures
        b == is_glob(entry@),
{
    let chars = text::to_chars(entry);
    let mut i: usize = 0;
    while i < chars.len()
        invariant
            0 <= i <= chars.len(),
            chars@ == entry@,
            forall|j: int|
                0 <= j < i ==> !(#[trigger] entry@[j] == '*' || entry@[j] == '?' || entry@[j]
                    == '['),
        decreases chars.len() - i,
    {
        if chars[i] == '*' || chars[i] == '?' || chars[i] == '[' {
            assert(entry@[i as int] == chars@[i as int]);
            return true;
        }
        i += 1;
    }
    false
}

/// The entries that are patterns, in their order.
pub open spec fn glob_entries(entries: Seq<Seq<char>>) -> Seq<Seq<char>>
    decreases entries.len(),
{
    if entries.len() == 0 {
        seq![]
    } else if is_glob(entries.last()) {
        glob_entries(entries.drop_last()).push(entries.last())
    } else {
        glob_entries(entries.drop_last())
    }
}

/// The entries that are names.
pub open spec fn name_entries(entries: Seq<Seq<char>>) -> Set<Seq<char>>
    decreases entries.len(),
{
    if entries.len() == 0 {
        Set::empty()
    } else if is_glob(entries.last()) {
        name_entries(entries.drop_last())
    } else {
        name_entries(entries.drop_last()).insert(entries.last())
    }
}

/// What is said of a pattern that does not compile.
pub open spec fn bad_glob(flag: Seq<char>, text: Seq<char>, fault: Seq<char>) -> Seq<char> {
    "Invalid glob pattern for "@ + flag + ": '"@ + text + "': "@ + fault
}

/// What is wrong with the first of the patterns that does not compile.
pub open spec fn globs_fault(flag: Seq<char>, texts: Seq<Seq<char>>) -> Option<Seq<char>>
    decreases texts.len(),
{
    if texts.len() == 0 {
        None
    } else {
        match globs_fault(flag, texts.drop_last()) {
            Some(e) => Some(e),
            None => match globs::glob_fault(texts.last()) {
                Some(fault) => Some(bad_glob(flag, texts.last(), fault)),
                None => None,
            },
        }
    }
}

proof fn lemma_fault_stays(flag: Seq<char>, texts: Seq<Seq<char>>, n: int)
    requires
        0 <= n <= texts.len(),
        globs_fault(flag, texts.take(n)) is Some,
    ensures
        globs_fault(flag, texts) == globs_fault(flag, texts.take(n)),
    decreases texts.len(),
{
    if n == texts.len() {
        assert(texts.take(n) =~= texts);
    } else {
        assert(texts.drop_last().take(n) =~= texts.take(n));
        lemma_fault_stays(flag, texts.drop_last(), n);
    }
}

/// Compiles a pattern that was given for a flag.
pub fn compile_glob(pattern: &str, flag_name: &str) -> (r: Result<Pattern, String>)
    ensures
        match r {
            Ok(p) => globs::glob_text(p) == pattern@ && globs::glob_fault(pattern@) is None,
            Err(e) => globs::glob_fault(pattern@) is Some && e@ == bad_glob(
                flag_name@,
                pattern@,
                globs::glob_fault(pattern@)->0,
            ),
        },
{
    match globs::compile(pattern) {
        Ok(p) => Ok(p),
        Err(fault) => Err(
            "Invalid glob pattern for ".to_string().concat(flag_name).concat(": '").concat(
                pattern,
            ).concat("': ").concat(fault.as_str()),
        ),
    }
}

/// Compiles the patterns that were given for a flag.
fn compile_globs(texts: &Vec<String>, flag_name: &str) -> (r: Result<Vec<Pattern>, String>)
    ensures
        match r {
            Ok(ps) => globs_fault(flag_name@, texts.deep_view()) is None && types::compiled_from(
                ps@,
                texts.deep_view(),
            ),
            Err(e) => globs_fault(flag_name@, texts.deep_view()) == Some(e@),
        },
{
    let ghost all = texts.deep_view();
    let mut out: Vec<Pattern> = Vec::new();
    let mut i: usize = 0;
    while i < texts.len()
        invariant
            0 <= i <= texts.len(),
            all == texts.deep_view(),
            globs_fault(flag_name@, all.take(i as int)) is None,
            types::compiled_from(out@, all.take(i as int)),
        decreases texts.len() - i,
    {
        proof {
            let next = all.take(i + 1);
            assert(next.drop_last() =~= all.take(i as int));
            assert(next.last() == texts@[i as int]@);
        }
        match compile_glob(texts[i].as_str(), flag_name) {
            Ok(p) => {
                out.push(p);
            },
            Err(e) => {
                proof {
                    lemma_fault_stays(flag_name@, all, i + 1);
                }
                return Err(e);
            },
        }
        i += 1;
    }
    assert(all.take(texts.len() as int) =~= all);
    Ok(out)
}

/// The names of the directories to skip.
pub open spec fn skipped_names(no_ignore: bool, extra: Seq<Seq<char>>) -> Set<Seq<char>> {
    (if no_ignore {
        Set::empty()
    } else {
        default_names()
    }).union(name_entries(extra))
}

/// Sorts the directories to skip into names and patterns: the defaults unless
/// --no-ignore is given, and those asked for either way. It fails for the first
/// pattern that does not compile.
pub fn build_ignore_dirs(no_ignore: bool, extra: &Vec<String>) -> (r: Result<
    (StringHashSet, Vec<Pattern>),
    String,
>)
    ensures
        match r {
            Ok((names, patterns)) => {
                &&& names@ == skipped_names(no_ignore, extra.deep_view())
                &&& types::compiled_from(patterns@, glob_entries(extra.deep_view()))
                &&& globs_fault("--exclude-dir"@, glob_entries(extra.deep_view())) is None
            },
            Err(e) => globs_fault("--exclude-dir"@, glob_entries(extra.deep_view())) == Some(e@),
        },
{
    let ghost all = extra.deep_view();
    let mut names = StringHashSet::new();
    if !no_ignore {
        names.insert(DEFAULT_IGNORES[0].to_string());
        names.insert(DEFAULT_IGNORES[1].to_string());
        names.insert(DEFAULT_IGNORES[2].to_string());
        names.insert(DEFAULT_IGNORES[3].to_string());
        assert(names@ =~= default_names());
    }
    let mut globs: Vec<String> = Vec::new();
    let mut i: usize = 0;
    assert(names@ =~= skipped_names(no_ignore, all.take(0)));
    assert(globs.deep_view() =~= glob_entries(all.take(0)));
    while i < extra.len()
        invariant
            0 <= i <= extra.len(),
            all == extra.deep_view(),
            names@ == skipped_names(no_ignore, all.take(i as int)),
            globs.deep_view() == glob_entries(all.take(i as int)),
        decreases extra.len() - i,
    {
        proof {
            let next = all.take(i + 1);
            assert(next.drop_last() =~= all.take(i as int));
            assert(next.last() == extra@[i as int]@);
        }
        if has_wildcard(extra[i].as_str()) {
            let ghost before = globs.deep_view();
            globs.push(extra[i].clone());
            assert(globs.deep_view() =~= before.push(extra@[i as int]@));
        } else {
            names.insert(extra[i].clone());
            assert(names@ =~= skipped_names(no_ignore, all.take(i + 1)));
        }
        i += 1;
    }
    assert(all.take(extra.len() as int) =~= all);
    match compile_globs(&globs, "--exclude-dir") {
        Ok(patterns) => Ok((names, patterns)),
        Err(e) => Err(e),
    }
}

/// How many lines of context a pair of options asks for.
pub open spec fn context_of(own: Option<usize>, both: Option<usize>) -> usize {
    match own {
        Some(n) => n,
        None => match both {
            Some(n) => n,
            None => 0,
        },
    }
}

fn choose_context(own: Option<usize>, both: Option<usize>) -> (n: usize)
    ensures
        n == context_of(own, both),
{
    match own {
        Some(n) => n,
        None => match both {
            Some(n) => n,
            None => 0,
        },
    }
}

/// Context is asked for where it has no effect: with -o.
pub open spec fn context_is_moot(args: Args) -> bool {
    args.only_matching && (context_of(args.before_context, args.context) > 0 || context_of(
        args.after_context,
        args.context,
    ) > 0)
}

/// Whether to warn that context has no effect.
pub fn warns_of_context(args: &Args) -> (b: bool)
    ensures
        b == context_is_moot(*args),
        b ==> args.only_matching,
        args.only_matching && args.before_context is None && args.after_context is None ==> b == (
        args.context is Some && args.context->0 > 0),
        args.only_matching && args.before_context is Some && args.before_context->0 > 0 ==> b,
        args.only_matching && args.after_context is Some && args.after_context->0 > 0 ==> b,
{
    args.only_matching && (choose_context(args.before_context, args.context) > 0 || choose_context(
        args.after_context,
        args.context,
    ) > 0)
}

/// How the query is to be matched.
pub open spec fn match_options(args: Args) -> MatchOptions {
    MatchOptions {
        fixed_strings: args.fixed_strings,
        ignore_case: args.ignore_case,
        whole_word: args.whole_word,
        whole_line: args.whole_line,
    }
}

/// What is wrong with the filters, if anything: the first of --exclude-dir,
/// --include, --exclude, --type and --type-not to be at fault.
pub open spec fn filters_fault(args: Args) -> Option<Seq<char>> {
    match globs_fault("--exclude-dir"@, glob_entries(args.exclude_dir.deep_view())) {
        Some(e) => Some(e),
        None => match include_fault(args.include_pattern) {
            Some(e) => Some(e),
            None => match globs_fault("--exclude"@, args.exclude.deep_view()) {
                Some(e) => Some(e),
                None => match types::first_unknown(args.types.deep_view()) {
                    Some(name) => Some(types::unknown_type(name)),
                    None => match types::first_unknown(args.type_not.deep_view()) {
                        Some(name) => Some(types::unknown_type(name)),
                        None => None,
                    },
                },
            },
        },
    }
}

/// What is wrong with the arguments of a search for `query`, if anything: the
/// query, or else the filters.
pub open spec fn config_fault(args: Args, query: Seq<char>) -> Option<Seq<char>> {
    match matcher::query_fault(query, match_options(args)) {
        Some(fault) => Some(matcher::invalid_pattern(query, fault)),
        None => filters_fault(args),
    }
}

/// What is wrong with the pattern for --include, if anything.
pub open spec fn include_fault(pattern: Option<String>) -> Option<Seq<char>> {
    match pattern {
        Some(p) => match globs::glob_fault(p@) {
            Some(fault) => Some(bad_glob("--include"@, p@, fault)),
            None => None,
        },
        None => None,
    }
}

/// The filters of a search, compiled.
struct Filters {
    ignore_dirs: StringHashSet,
    ignore_dir_patterns: Vec<Pattern>,
    include_pattern: Option<Pattern>,
    exclude_patterns: Vec<Pattern>,
    type_patterns: Vec<Pattern>,
    type_not_patterns: Vec<Pattern>,
}

/// The filters are those that the arguments ask for.
pub open spec fn are_filters_for(
    ignore_dirs: StringHashSet,
    ignore_dir_patterns: Seq<Pattern>,
    include_pattern: Option<Pattern>,
    exclude_patterns: Seq<Pattern>,
    type_patterns: Seq<Pattern>,
    type_not_patterns: Seq<Pattern>,
    args: Args,
) -> bool {
    &&& ignore_dirs@ == skipped_names(args.no_ignore, args.exclude_dir.deep_view())
    &&& types::compiled_from(ignore_dir_patterns, glob_entries(args.exclude_dir.deep_view()))
    &&& match args.include_pattern {
        Some(p) => include_pattern matches Some(g) && globs::glob_text(g) == p@,
        None => include_pattern is None,
    }
    &&& types::compiled_from(exclude_patterns, args.exclude.deep_view())
    &&& types::compiled_from(type_patterns, types::expanded(args.types.deep_view()))
    &&& types::compiled_from(type_not_patterns, types::expanded(args.type_not.deep_view()))
}

fn build_filters(args: &Args) -> (r: Result<Filters, String>)
    ensures
        match r {
            Ok(f) => filters_fault(*args) is None && are_filters_for(
                f.ignore_dirs,
                f.ignore_dir_patterns@,
                f.include_pattern,
                f.exclude_patterns@,
                f.type_patterns@,
                f.type_not_patterns@,
                *args,
            ),
            Err(e) => filters_fault(*args) == Some(e@),
        },
{
    let (ignore_dirs, ignore_dir_patterns) = match build_ignore_dirs(
        args.no_ignore,
        &args.exclude_dir,
    ) {
        Ok(pair) => pair,
        Err(e) => {
            return Err(e);
        },
    };
    let include_pattern: Option<Pattern> = match &args.include_pattern {
        Some(p) => match compile_glob(p.as_str(), "--include") {
            Ok(g) => Some(g),
            Err(e) => {
                return Err(e);
            },
        },
        None => None,
    };
    let exclude_patterns: Vec<Pattern> = match compile_globs(&args.exclude, "--exclude") {
        Ok(ps) => ps,
        Err(e) => {
            return Err(e);
        },
    };
    let type_patterns: Vec<Pattern> = match types::expand_types(&args.types) {
        Ok(ps) => ps,
        Err(e) => {
            return Err(e);
        },
    };
    let type_not_patterns: Vec<Pattern> = match types::expand_types(&args.type_not) {
        Ok(ps) => ps,
        Err(e) => {
            return Err(e);
        },
    };
    Ok(
        Filters {
            ignore_dirs,
            ignore_dir_patterns,
            include_pattern,
            exclude_patterns,
            type_patterns,
            type_not_patterns,
        },
    )
}

/// The configuration is the one that the arguments ask for.
pub open spec fn is_config_for(c: SearchConfig, args: Args, query: Seq<char>) -> bool {
    let opts = match_options(args);
    let moot = context_is_moot(args);
    &&& c.query@ == query
    &&& matcher::regex_pattern(c.regex) == matcher::query_pattern(query, opts)
    &&& matcher::regex_folds_case(c.regex) == args.ignore_case
    &&& are_filters_for(
        c.ignore_dirs,
        c.ignore_dir_patterns@,
        c.include_pattern,
        c.exclude_patterns@,
        c.type_patterns@,
        c.type_not_patterns@,
        args,
    )
    &&& c.ignore_case == args.ignore_case
    &&& c.line_number == args.line_number
    &&& c.debug == args.debug
    &&& c.invert == args.invert
    &&& c.files_with_matches == args.files_with_matches
    &&& c.files_without_match == args.files_without_match
    &&& c.count_per_file == args.count_per_file
    &&& c.before_context == if moot {
        0
    } else {
        context_of(args.before_context, args.context)
    }
    &&& c.after_context == if moot {
        0
    } else {
        context_of(args.after_context, args.context)
    }
    &&& c.respect_gitignore == !args.no_ignore
    &&& c.hidden == args.hidden
    &&& c.files_only == args.files
    &&& c.search_compressed == args.search_compressed
    &&& c.quiet == args.quiet
    &&& c.only_matching == args.only_matching
    &&& c.max_count == limit_of(args.max_count)
}

/// The limit that -m sets on this machine.
pub open spec fn limit_of(max_count: Option<u64>) -> Option<usize> {
    match max_count {
        Some(n) => Some(
            if n <= usize::MAX {
                n as usize
            } else {
                usize::MAX
            },
        ),
        None => None,
    }
}

/// Turns the arguments into the configuration of a search for `query`, or says
/// what is wrong with them.
#[verifier::rlimit(50)]
pub fn build_config(args: &Args, query: &str) -> (r: Result<SearchConfig, String>)
    ensures
        match r {
            Ok(c) => config_fault(*args, query@) is None && is_config_for(c, *args, query@),
            Err(e) => config_fault(*args, query@) == Some(e@),
        },
        r matches Ok(c) ==> {
            &&& matcher::regex_folds_case(c.regex) == args.ignore_case
            &&& matcher::regex_pattern(c.regex) == matcher::query_pattern(
                query@,
                (MatchOptions {
                    fixed_strings: args.fixed_strings,
                    ignore_case: args.ignore_case,
                    whole_word: args.whole_word,
                    whole_line: args.whole_line,
                }),
            )
            &&& c.query@ == query@
            &&& c.ignore_case == args.ignore_case
            &&& c.line_number == args.line_number
            &&& c.debug == args.debug
            &&& c.invert == args.invert
            &&& c.files_with_matches == args.files_with_matches
            &&& c.files_without_match == args.files_without_match
            &&& c.count_per_file == args.count_per_file
            &&& c.respect_gitignore == !args.no_ignore
            &&& c.hidden == args.hidden
            &&& c.files_only == args.files
            &&& c.search_compressed == args.search_compressed
            &&& c.quiet == args.quiet
            &&& c.only_matching == args.only_matching
            &&& c.max_count is Some <==> args.max_count is Some
        },
{
    let opts = MatchOptions {
        fixed_strings: args.fixed_strings,
        ignore_case: args.ignore_case,
        whole_word: args.whole_word,
        whole_line: args.whole_line,
    };
    assert(opts == match_options(*args));
    let regex: Regex = match matcher::build_matcher(query, opts) {
        Ok(re) => re,
        Err(e) => {
            return Err(e);
        },
    };
    let filters = match build_filters(args) {
        Ok(f) => f,
        Err(e) => {
            return Err(e);
        },
    };
    let moot: bool = warns_of_context(args);
    let before_context: usize = if moot {
        0
    } else {
        choose_context(args.before_context, args.context)
    };
    let after_context: usize = if moot {
        0
    } else {
        choose_context(args.after_context, args.context)
    };
    let max_count: Option<usize> = match args.max_count {
        Some(n) => Some(
            if n <= usize::MAX as u64 {
                n as usize
            } else {
                usize::MAX
            },
        ),
        None => None,
    };
    Ok(
        SearchConfig {
            query: query.to_string(),
            regex,
            ignore_case: args.ignore_case,
            line_number: args.line_number,
            ignore_dirs: filters.ignore_dirs,
            ignore_dir_patterns: filters.ignore_dir_patterns,
            debug: args.debug,
            invert: args.invert,
            files_with_matches: args.files_with_matches,
            files_without_match: args.files_without_match,
            count_per_file: args.count_per_file,
            include_pattern: filters.include_pattern,
            exclude_patterns: filters.exclude_patterns,
            type_patterns: filters.type_patterns,
            type_not_patterns: filters.type_not_patterns,
            before_context,
            after_context,
            respect_gitignore: !args.no_ignore,
            hidden: args.hidden,
            files_only: args.files,
            search_compressed: args.search_compressed,
            quiet: args.quiet,
            only_matching: args.only_matching,
            max_count,
        },
    )
}

/// The exit code of a run whose arguments are at fault.
pub fn fault_exit_code(quiet: bool) -> (code: i32)
    ensures
        code == if quiet {
            2i32
        } else {
            1
        },
{
    if quiet {
        2
    } else {
        1
    }
}

/// The exit code of a search. Under -q it tells of the outcome: zero for a
/// match, one for none, two if something could not be read. Otherwise it is
/// one if something could not be read, and zero if all was.
pub fn exit_code(quiet: bool, stats: &SearchStats) -> (code: i32)
    ensures
        code == if quiet {
            if stats.io_errors > 0 {
                2i32
            } else if stats.matched_lines > 0 {
                0
            } else {
                1
            }
        } else {
            if stats.io_errors > 0 {
                1
            } else {
                0
            }
        },
{
    if quiet {
        if stats.io_errors > 0 {
            2
        } else if stats.matched_lines > 0 {
            0
        } else {
            1
        }
    } else if stats.io_errors > 0 {
        1
    } else {
        0
    }
}

/// What is said at the end of a search in which something could not be read.
pub open spec fn read_failures(n: int, debug: bool) -> Seq<char> {
    "argrep: "@ + decimal::decimal(n) + " file(s)/director(ies) could not be read"@ + if debug {
        seq![]
    } else {
        " (rerun with --debug for details)"@
    }
}

/// What is said at the end of a search in which something could not be read,
/// and nothing if all was.
pub fn io_error_summary(io_errors: usize, debug: bool) -> (r: Option<String>)
    ensures
        match r {
            Some(s) => io_errors > 0 && s@ == read_failures(io_errors as int, debug),
            None => io_errors == 0,
        },
{
    if io_errors == 0 {
        return None;
    }
    let mut out = "argrep: ".to_string().concat(decimal::to_decimal(io_errors as u128).as_str());
    out.append(" file(s)/director(ies) could not be read");
    if !debug {
        out.append(" (rerun with --debug for details)");
    }
    assert(out@ =~= read_failures(io_errors as int, debug));
    Some(out)
}

} // verus!
