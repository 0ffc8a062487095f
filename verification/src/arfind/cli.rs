//! The command line of `arfind`.

use crate::amounts;
use crate::amounts::{Amount, AmountFault};
use crate::arfind::scan::{SearchConfig, SizeFilter};
use crate::globs;
use crate::ignore_files;
use crate::text;
use glob::Pattern;
use vstd::hash_set::StringHashSet;
use vstd::prelude::*;
use vstd::string::*;

verus! {

/// Directories that are not entered unless --no-ignore is given.
pub const DEFAULT_IGNORES: [&'static str; 3] = [".git", "node_modules", "__pycache__"];

/// The arguments of `arfind`.
pub struct Args {
    /// The root of the search.
    pub path: String,
    /// What names have to match.
    pub name: String,
    pub case_insensitive: bool,
    /// The number of worker threads.
    pub jobs: usize,
    pub max_depth: Option<usize>,
    /// Further directories not to enter.
    pub ignore: Vec<String>,
    pub no_ignore: bool,
    /// `f`, `d` or `l`.
    pub file_type: Option<String>,
    pub hidden: bool,
    pub debug: bool,
    /// `N` or `+N` for larger, `-N` for smaller.
    pub size: Option<String>,
    /// Only what is empty.
    pub empty: bool,
    /// Only the number of matches is printed.
    pub count: bool,
}

impl Default for Args {
    fn default() -> (r: Self)
        ensures
            r.path@ == "."@,
            r.name@ == "*"@,
            r.jobs == 4,
            r.max_depth is None,
            r.ignore@.len() == 0,
            r.file_type is None,
            r.size is None,
            !r.case_insensitive && !r.no_ignore && !r.hidden && !r.debug && !r.empty && !r.count,
    {
        Args {
            path: ".".to_string(),
            name: "*".to_string(),
            case_insensitive: false,
            jobs: 4,
            max_depth: None,
            ignore: Vec::new(),
            no_ignore: false,
            file_type: None,
            hidden: false,
            debug: false,
            size: None,
            empty: false,
            count: false,
        }
    }
}

/// The names of the directories that are not entered by default.
pub open spec fn default_names() -> Set<Seq<char>> {
    set![".git"@, "node_modules"@, "__pycache__"@]
}

/// The names of the directories not to enter: the defaults unless --no-ignore
/// is given, and those asked for either way.
pub open spec fn skipped_names(no_ignore: bool, extra: Seq<Seq<char>>) -> Set<Seq<char>> {
    (if no_ignore {
        Set::empty()
    } else {
        default_names()
    }).union(extra.to_set())
}

/// The names of the directories not to enter.
pub fn build_ignore_dirs(no_ignore: bool, extra: &Vec<String>) -> (r: StringHashSet)
    ensures
        r@ == skipped_names(no_ignore, extra.deep_view()),
{
    let mut names = StringHashSet::new();
    if !no_ignore {
        names.insert(DEFAULT_IGNORES[0].to_string());
        names.insert(DEFAULT_IGNORES[1].to_string());
        names.insert(DEFAULT_IGNORES[2].to_string());
        assert(names@ =~= default_names());
    }
    ignore_files::insert_all(&mut names, extra);
    names
}

/// What is said of a size that is not an amount; `None` if it is one.
pub open spec fn size_fault(s: Seq<char>) -> Option<Seq<char>> {
    match amounts::amount(s) {
        Amount::Bytes(_) => None,
        Amount::MissingUnit => Some("Missing unit in '"@ + s + "'. Use B, KB, MB, GB, or TB."@),
        Amount::BadNumber(t) => Some("Invalid number '"@ + t + "' in size '"@ + s + "'."@),
        Amount::Negative => Some("Size must be positive, got '"@ + s + "'."@),
        Amount::UnknownUnit(t) => Some("Unknown unit '"@ + t + "'. Use B, KB, MB, GB, or TB."@),
    }
}

/// Reads a size such as `500B`, `100KB` or `1.5GB`.
pub fn parse_size_bytes(s: &str) -> (r: Result<u64, String>)
    ensures
        match r {
            Ok(n) => amounts::amount(s@) == Amount::Bytes(n as int),
            Err(e) => size_fault(s@) == Some(e@),
        },
        text::all_ascii(s@) ==> amounts::amount(s@) == amounts::ascii_amount(s@),
{
    match amounts::parse_amount(s) {
        Ok(n) => Ok(n),
        Err(AmountFault::MissingUnit) => Err(
            "Missing unit in '".to_string().concat(s).concat("'. Use B, KB, MB, GB, or TB."),
        ),
        Err(AmountFault::BadNumber(num)) => Err(
            "Invalid number '".to_string().concat(num.as_str()).concat("' in size '").concat(
                s,
            ).concat("'."),
        ),
        Err(AmountFault::Negative) => Err(
            "Size must be positive, got '".to_string().concat(s).concat("'."),
        ),
        Err(AmountFault::UnknownUnit(unit)) => Err(
            "Unknown unit '".to_string().concat(unit.as_str()).concat(
                "'. Use B, KB, MB, GB, or TB.",
            ),
        ),
    }
}

/// The size in a bound, without the sign that says which way it goes.
pub open spec fn bound_text(s: Seq<char>) -> Seq<char> {
    amounts::unsigned(text::trimmed(s))
}

/// The bound is an upper one.
pub open spec fn is_upper(s: Seq<char>) -> bool {
    text::trimmed(s).len() > 0 && text::trimmed(s)[0] == '-'
}

/// What a bound with a size of `n` bytes amounts to.
pub open spec fn bound_filter(s: Seq<char>, n: u64) -> SizeFilter {
    if is_upper(s) {
        SizeFilter { min: None, max: Some(n) }
    } else {
        SizeFilter { min: Some(n), max: None }
    }
}

/// Reads a bound on sizes: `-N` for smaller than N, `+N` or `N` for larger.
/// Blanks around it are disregarded.
pub fn parse_size(s: &str) -> (r: Result<SizeFilter, String>)
    ensures
        match r {
            Ok(f) => amounts::amount(bound_text(s@)) is Bytes && f == bound_filter(
                s@,
                amounts::amount(bound_text(s@))->Bytes_0 as u64,
            ),
            Err(e) => size_fault(bound_text(s@)) == Some(e@),
        },
        r matches Ok(f) ==> {
            let t = text::trimmed(s@);
            &&& f.max is Some <==> t.len() > 0 && t[0] == '-'
            &&& f.min is Some <==> f.max is None
            &&& amounts::amount(amounts::unsigned(t)) == Amount::Bytes(
                if f.max is Some {
                    f.max->0 as int
                } else {
                    f.min->0 as int
                },
            )
        },
        text::all_ascii(bound_text(s@)) ==> amounts::amount(bound_text(s@))
            == amounts::ascii_amount(bound_text(s@)),
{
    let t = text::trim(s);
    let chars = text::to_chars(t.as_str());
    let n: usize = chars.len();
    let upper: bool = n > 0 && chars[0] == '-';
    let start: usize = if n > 0 && (chars[0] == '+' || chars[0] == '-') {
        1
    } else {
        0
    };
    let rest = text::from_chars(&chars, start, n);
    assert(rest@ =~= bound_text(s@));
    match parse_size_bytes(rest.as_str()) {
        Ok(bytes) => if upper {
            Ok(SizeFilter { min: None, max: Some(bytes) })
        } else {
            Ok(SizeFilter { min: Some(bytes), max: None })
        },
        Err(e) => Err(e),
    }
}

/// A type that can be asked for.
pub open spec fn is_type(t: Seq<char>) -> bool {
    t == "f"@ || t == "d"@ || t == "l"@
}

/// What is wrong with the arguments, if anything: the type, or else the
/// pattern, or else the size.
pub open spec fn args_fault(args: Args) -> Option<Seq<char>> {
    if args.file_type matches Some(t) && !is_type(t@) {
        Some(
            "Invalid type '"@ + args.file_type->0@
                + "'. Use 'f' for files, 'd' for directories, or 'l' for symlinks."@,
        )
    } else {
        match globs::glob_fault(args.name@) {
            Some(fault) => Some("Invalid glob pattern '"@ + args.name@ + "': "@ + fault),
            None => match args.size {
                Some(s) => size_fault(bound_text(s@)),
                None => None,
            },
        }
    }
}

/// Turns the arguments into what the search goes by. --no-ignore turns off
/// both the default directories and the ignore files.
pub fn build_config(args: &Args) -> (r: Result<SearchConfig, String>)
    ensures
        match r {
            Ok(c) => {
                &&& args_fault(*args) is None
                &&& globs::glob_text(c.pattern) == args.name@
                &&& c.ignore_dirs@ == skipped_names(args.no_ignore, args.ignore.deep_view())
                &&& c.max_depth == args.max_depth
                &&& c.file_type == args.file_type
                &&& c.hidden == args.hidden
                &&& c.debug == args.debug
                &&& c.empty_only == args.empty
                &&& c.case_insensitive == args.case_insensitive
                &&& c.respect_gitignore == !args.no_ignore
                &&& match args.size {
                    Some(s) => amounts::amount(bound_text(s@)) is Bytes && c.size_filter == Some(
                        bound_filter(s@, amounts::amount(bound_text(s@))->Bytes_0 as u64),
                    ),
                    None => c.size_filter is None,
                }
            },
            Err(e) => args_fault(*args) == Some(e@),
        },
{
    if let Some(t) = &args.file_type {
        if !(*t == "f".to_string() || *t == "d".to_string() || *t == "l".to_string()) {
            return Err(
                "Invalid type '".to_string().concat(t.as_str()).concat(
                    "'. Use 'f' for files, 'd' for directories, or 'l' for symlinks.",
                ),
            );
        }
    }
    let ignore_dirs = build_ignore_dirs(args.no_ignore, &args.ignore);
    let pattern: Pattern = match globs::compile(args.name.as_str()) {
        Ok(p) => p,
        Err(fault) => {
            return Err(
                "Invalid glob pattern '".to_string().concat(args.name.as_str()).concat(
                    "': ",
                ).concat(fault.as_str()),
            );
        },
    };
    let size_filter: Option<SizeFilter> = match &args.size {
        Some(s) => match parse_size(s.as_str()) {
            Ok(f) => Some(f),
            Err(e) => {
                return Err(e);
            },
        },
        None => None,
    };
    let file_type: Option<String> = match &args.file_type {
        Some(t) => Some(t.clone()),
        None => None,
    };
    Ok(
        SearchConfig {
            pattern,
            ignore_dirs,
            max_depth: args.max_depth,
            file_type,
            hidden: args.hidden,
            debug: args.debug,
            size_filter,
            empty_only: args.empty,
            case_insensitive: args.case_insensitive,
            respect_gitignore: !args.no_ignore,
        },
    )
}

} // verus!
