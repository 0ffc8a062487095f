//! The command line of `ardisk`.

use crate::amounts;
use crate::amounts::{Amount, AmountFault};
use crate::ardisk::report::ReportOptions;
use crate::ardisk::scan;
use crate::ardisk::scan::ScanConfig;
use crate::globs;
use crate::ignore_files;
use crate::numbers;
use crate::text;
use glob::Pattern;
use std::sync::Arc;
use vstd::hash_set::StringHashSet;
use vstd::prelude::*;
use vstd::string::*;

verus! {

/// Directories that are skipped unless --no-ignore is given.
pub const DEFAULT_IGNORES: [&'static str; 3] = [".git", "node_modules", "__pycache__"];

/// How many workers there may be.
pub const MAX_JOBS: u16 = 65_535;

/// The arguments of `ardisk`.
pub struct Args {
    /// The directory to analyze.
    pub path: String,
    /// The number of worker threads.
    pub jobs: usize,
    pub debug: bool,
    /// How deep the directories of the report may lie.
    pub max_depth: Option<usize>,
    /// How many directories the report shows.
    pub top: usize,
    /// --include: only files with such a name count.
    pub include_pattern: Option<String>,
    /// Only directories larger than this size are shown.
    pub threshold: Option<String>,
    /// Only the total for the root is shown.
    pub summarize: bool,
    pub apparent_size: bool,
    /// Further directories to skip.
    pub ignore: Vec<String>,
    pub no_ignore: bool,
}

impl Args {
    /// The arguments where none are given, on a machine with so many
    /// processors.
    pub fn new(cpus: usize) -> (r: Self)
        ensures
            r.path@ == "."@,
            1 <= r.jobs <= 16,
            r.jobs == if cpus / 2 < 1 {
                1
            } else if cpus / 2 > 16 {
                16
            } else {
                cpus / 2
            },
            !r.debug && !r.summarize && !r.apparent_size && !r.no_ignore,
            r.max_depth is None,
            r.top == 20,
            r.include_pattern is None,
            r.threshold is None,
            r.ignore@.len() == 0,
    {
        Args {
            path: ".".to_string(),
            jobs: numbers::default_jobs(cpus),
            debug: false,
            max_depth: None,
            top: 20,
            include_pattern: None,
            threshold: None,
            summarize: false,
            apparent_size: false,
            ignore: Vec::new(),
            no_ignore: false,
        }
    }
}

/// The names of the directories that are skipped by default.
pub open spec fn default_names() -> Set<Seq<char>> {
    set![".git"@, "node_modules"@, "__pycache__"@]
}

/// The names of the directories to skip: the defaults unless --no-ignore is
/// given, and those asked for either way.
pub open spec fn skipped_names(no_ignore: bool, extra: Seq<Seq<char>>) -> Set<Seq<char>> {
    (if no_ignore {
        Set::empty()
    } else {
        default_names()
    }).union(extra.to_set())
}

fn ignore_names(no_ignore: bool, extra: &Vec<String>) -> (r: StringHashSet)
    ensures
        r@ == skipped_names(no_ignore, extra.deep_view()),
{
    let mut names = StringHashSet::new();
    if !no_ignore {
        names.insert(DEFAULT_IGNORES[0].to_string());
        names.insert(DEFAULT_IGNORES[1].to_string());
        names.insert(DEFAULT_IGNORES[2].to_string());
        assert(names@ =~= default_names());
    }
    ignore_files::insert_all(&mut names, extra);
    names
}

/// The names of the directories to skip.
pub fn build_ignore_dirs(no_ignore: bool, extra: Vec<String>) -> (r: StringHashSet)
    ensures
        r@ == skipped_names(no_ignore, extra.deep_view()),
{
    ignore_names(no_ignore, &extra)
}

/// What is said of a threshold that is not an amount; `None` if it is one.
pub open spec fn threshold_fault(s: Seq<char>) -> Option<Seq<char>> {
    match amounts::amount(s) {
        Amount::Bytes(_) => None,
        Amount::MissingUnit => Some(
            "Missing unit suffix in '"@ + s + "'. Use B, KB, MB, GB, or TB."@,
        ),
        Amount::BadNumber(t) => Some(
            "Invalid number '"@ + t + "' in threshold '"@ + s + "'."@,
        ),
        Amount::Negative => Some("Threshold must be a positive value, got '"@ + s + "'."@),
        Amount::UnknownUnit(t) => Some("Unknown unit '"@ + t + "'. Use B, KB, MB, GB, or TB."@),
    }
}

/// Reads a size such as `500B`, `100KB`, `1.5GB`, with blanks around it
/// disregarded.
pub fn parse_threshold(s: &str) -> (r: Result<u64, String>)
    ensures
        match r {
            Ok(n) => amounts::amount(text::trimmed(s@)) == Amount::Bytes(n as int),
            Err(e) => threshold_fault(text::trimmed(s@)) == Some(e@),
        },
        text::all_ascii(text::trimmed(s@)) ==> amounts::amount(text::trimmed(s@))
            == amounts::ascii_amount(text::trimmed(s@)),
{
    let t = text::trim(s);
    match amounts::parse_amount(t.as_str()) {
        Ok(n) => Ok(n),
        Err(AmountFault::MissingUnit) => Err(
            "Missing unit suffix in '".to_string().concat(t.as_str()).concat(
                "'. Use B, KB, MB, GB, or TB.",
            ),
        ),
        Err(AmountFault::BadNumber(num)) => Err(
            "Invalid number '".to_string().concat(num.as_str()).concat("' in threshold '").concat(
                t.as_str(),
            ).concat("'."),
        ),
        Err(AmountFault::Negative) => Err(
            "Threshold must be a positive value, got '".to_string().concat(t.as_str()).concat("'."),
        ),
        Err(AmountFault::UnknownUnit(unit)) => Err(
            "Unknown unit '".to_string().concat(unit.as_str()).concat(
                "'. Use B, KB, MB, GB, or TB.",
            ),
        ),
    }
}

/// What a run of `ardisk` goes by.
pub struct Plan {
    pub config: Arc<ScanConfig>,
    pub report: ReportOptions,
}

/// What is said of a pattern that does not compile.
pub open spec fn bad_pattern(text: Seq<char>, fault: Seq<char>) -> Seq<char> {
    "Invalid glob pattern '"@ + text + "': "@ + fault
}

/// What is wrong with the arguments, if anything: the pattern, or else the
/// threshold.
pub open spec fn args_fault(args: Args) -> Option<Seq<char>> {
    let pattern_fault = match args.include_pattern {
        Some(p) => globs::glob_fault(p@),
        None => None,
    };
    match pattern_fault {
        Some(fault) => Some(bad_pattern(args.include_pattern->0@, fault)),
        None => match args.threshold {
            Some(t) => threshold_fault(text::trimmed(t@)),
            None => None,
        },
    }
}

/// Turns the arguments into what the scan and the report go by. --no-ignore
/// turns off both the default directories and the ignore files.
pub fn build_plan(args: &Args) -> (r: Result<Plan, String>)
    ensures
        match r {
            Ok(plan) => {
                &&& args_fault(*args) is None
                &&& plan.config.ignore_dirs@ == skipped_names(
                    args.no_ignore,
                    args.ignore.deep_view(),
                )
                &&& match args.include_pattern {
                    Some(p) => plan.config.include_pattern is Some && globs::glob_text(
                        plan.config.include_pattern->0,
                    ) == p@,
                    None => plan.config.include_pattern is None,
                }
                &&& plan.config.debug == args.debug
                &&& plan.config.apparent_size == args.apparent_size
                &&& plan.config.respect_gitignore == !args.no_ignore
                &&& plan.report.top == args.top
                &&& plan.report.max_depth == args.max_depth
                &&& plan.report.filtered == args.include_pattern is Some
                &&& match args.threshold {
                    Some(t) => plan.report.threshold is Some && amounts::amount(
                        text::trimmed(t@),
                    ) == Amount::Bytes(plan.report.threshold->0 as int),
                    None => plan.report.threshold is None,
                }
            },
            Err(e) => args_fault(*args) == Some(e@),
        },
{
    let ignore_dirs = ignore_names(args.no_ignore, &args.ignore);
    let pattern: Option<Pattern> = match &args.include_pattern {
        Some(p) => match globs::compile(p.as_str()) {
            Ok(pattern) => Some(pattern),
            Err(fault) => {
                return Err(
                    "Invalid glob pattern '".to_string().concat(p.as_str()).concat("': ").concat(
                        fault.as_str(),
                    ),
                );
            },
        },
        None => None,
    };
    let threshold: Option<u64> = match &args.threshold {
        Some(t) => match parse_threshold(t.as_str()) {
            Ok(n) => Some(n),
            Err(e) => {
                return Err(e);
            },
        },
        None => None,
    };
    let filtered: bool = args.include_pattern.is_some();
    Ok(
        Plan {
            config: scan::build_config(
                ignore_dirs,
                pattern,
                args.debug,
                args.apparent_size,
                !args.no_ignore,
            ),
            report: ReportOptions {
                top: args.top,
                max_depth: args.max_depth,
                threshold,
                filtered,
            },
        },
    )
}

} // verus!
