//! Line matching: a regular expression compiled from a query and its options.

use regex::{Regex, RegexBuilder};
use vstd::prelude::*;
use vstd::string::*;
use vstd::utf8::*;

verus! {

#[verifier::external_type_specification]
#[verifier::external_body]
pub struct ExRegex(regex::Regex);

/// The pattern that an expression was compiled from.
pub uninterp spec fn regex_pattern(re: regex::Regex) -> Seq<char>;

/// Whether an expression was compiled to disregard letter case.
pub uninterp spec fn regex_folds_case(re: regex::Regex) -> bool;

/// What `RegexBuilder::build` objects to in a pattern; `None` where it
/// compiles.
pub uninterp spec fn regex_fault(pattern: Seq<char>, fold: bool) -> Option<Seq<char>>;

/// The matches that `Regex::find_iter` finds in `hay`, as pairs of byte
/// offsets.
pub uninterp spec fn regex_spans(pattern: Seq<char>, fold: bool, hay: Seq<char>) -> Seq<
    (usize, usize),
>;

/// The matches of a compiled expression in `hay`.
pub open spec fn spans(re: Regex, hay: Seq<char>) -> Seq<(usize, usize)> {
    regex_spans(regex_pattern(re), regex_folds_case(re), hay)
}

/// The pairs are ranges of whole characters of `hay`, in order and without
/// overlap.
pub open spec fn spans_fit(spans: Seq<(usize, usize)>, hay: Seq<char>) -> bool {
    &&& forall|i: int|
        0 <= i < spans.len() ==> {
            &&& (#[trigger] spans[i]).0 <= spans[i].1 <= encode_utf8(hay).len()
            &&& is_char_boundary(encode_utf8(hay), spans[i].0 as int)
            &&& is_char_boundary(encode_utf8(hay), spans[i].1 as int)
        }
    &&& forall|i: int, j: int|
        0 <= i < j < spans.len() ==> (#[trigger] spans[i]).1 <= (#[trigger] spans[j]).0
}

/// The characters that mean something in a pattern.
pub open spec fn is_meta(c: char) -> bool {
    c == '\\' || c == '.' || c == '+' || c == '*' || c == '?' || c == '(' || c == ')' || c == '|'
        || c == '[' || c == ']' || c == '{' || c == '}' || c == '^' || c == '$' || c == '#' || c
        == '&' || c == '-' || c == '~'
}

/// A text with a backslash before each character that means something in a
/// pattern.
pub open spec fn escaped(s: Seq<char>) -> Seq<char>
    decreases s.len(),
{
    if s.len() == 0 {
        seq![]
    } else if is_meta(s.last()) {
        escaped(s.drop_last()) + seq!['\\', s.last()]
    } else {
        escaped(s.drop_last()).push(s.last())
    }
}

/// `part` stands somewhere in `hay`.
pub open spec fn occurs_in(part: Seq<char>, hay: Seq<char>) -> bool {
    exists|i: int|
        0 <= i <= hay.len() - part.len() && #[trigger] hay.subrange(i, i + part.len()) == part
}

/// The pattern for a whole word.
pub open spec fn as_word(pattern: Seq<char>) -> Seq<char> {
    "\\b(?:"@ + pattern + ")\\b"@
}

/// The pattern for a whole line.
pub open spec fn as_line(pattern: Seq<char>) -> Seq<char> {
    "^(?:"@ + pattern + ")$"@
}

/// Calls `regex::escape`, which puts a backslash before each character that
/// means something in a pattern.
#[verifier::external_body]
fn escape(s: &str) -> (r: String)
    ensures
        r@ == escaped(s@),
{
    regex::escape(s)
}

/// Calls `RegexBuilder::build`, with `case_insensitive` set as asked. The
/// expression keeps the pattern and the setting.
#[verifier::external_body]
fn compile(pattern: &str, fold: bool) -> (r: Result<Regex, String>)
    ensures
        match r {
            Ok(re) => {
                &&& regex_pattern(re) == pattern@
                &&& regex_folds_case(re) == fold
                &&& regex_fault(pattern@, fold) is None
            },
            Err(e) => regex_fault(pattern@, fold) == Some(e@),
        },
{
    RegexBuilder::new(pattern).case_insensitive(fold).build().map_err(|e| e.to_string())
}

/// Calls `Regex::find_iter`, whose matches are ranges of whole characters, in
/// order and without overlap.
#[verifier::external_body]
pub(crate) fn find_spans(re: &Regex, hay: &str) -> (r: Vec<(usize, usize)>)
    ensures
        r@ == regex_spans(regex_pattern(*re), regex_folds_case(*re), hay@),
        spans_fit(r@, hay@),
{
    re.find_iter(hay).map(|m| (m.start(), m.end())).collect()
}

/// Calls `Regex::is_match`: whether there is a match anywhere in `hay`. An
/// escaped text used as a pattern matches where the text stands in `hay`, and
/// between `^` and `$` it matches where the text is the whole of `hay`.
#[verifier::external_body]
fn is_match(re: &Regex, hay: &str) -> (b: bool)
    ensures
        b == (spans(*re, hay@).len() > 0),
        forall|q: Seq<char>|
            !regex_folds_case(*re) && regex_pattern(*re) == #[trigger] escaped(q) ==> b
                == occurs_in(q, hay@),
        forall|q: Seq<char>|
            !regex_folds_case(*re) && regex_pattern(*re) == as_line(#[trigger] escaped(q)) ==> b
                == (hay@ == q),
{
    re.is_match(hay)
}

/// How a query is turned into a pattern.
#[derive(Debug, Clone, Copy)]
pub struct MatchOptions {
    /// -F: the query is matched literally.
    pub fixed_strings: bool,
    /// -i: letter case is disregarded.
    pub ignore_case: bool,
    /// -w: a match has to be a whole word.
    pub whole_word: bool,
    /// -x: a match has to be the whole line.
    pub whole_line: bool,
}

impl Default for MatchOptions {
    fn default() -> (r: Self)
        ensures
            !r.fixed_strings && !r.ignore_case && !r.whole_word && !r.whole_line,
    {
        MatchOptions {
            fixed_strings: false,
            ignore_case: false,
            whole_word: false,
            whole_line: false,
        }
    }
}

/// The pattern for a query: the query, escaped under -F, then wrapped as a
/// word under -w, then as a line under -x.
pub open spec fn query_pattern(query: Seq<char>, opts: MatchOptions) -> Seq<char> {
    let base = if opts.fixed_strings {
        escaped(query)
    } else {
        query
    };
    let word = if opts.whole_word {
        as_word(base)
    } else {
        base
    };
    if opts.whole_line {
        as_line(word)
    } else {
        word
    }
}

/// What is said of a query whose pattern does not compile.
pub open spec fn invalid_pattern(query: Seq<char>, fault: Seq<char>) -> Seq<char> {
    "Invalid pattern '"@ + query + "': "@ + fault
}

/// What keeps a query from being searched for, if anything: a query that is
/// not taken literally has to be an expression by itself, before it is wrapped,
/// and then its pattern has to compile.
pub open spec fn query_fault(query: Seq<char>, opts: MatchOptions) -> Option<Seq<char>> {
    let own = regex_fault(query, opts.ignore_case);
    if !opts.fixed_strings && own is Some {
        own
    } else {
        regex_fault(query_pattern(query, opts), opts.ignore_case)
    }
}

fn pattern_error(query: &str, fault: &str) -> (r: String)
    ensures
        r@ == invalid_pattern(query@, fault@),
{
    "Invalid pattern '".to_string().concat(query).concat("': ").concat(fault)
}

/// Builds the matcher that is used on every line. It fails, with a message for
/// the user, exactly where the query, or the pattern made of it, does not
/// compile.
pub fn build_matcher(query: &str, opts: MatchOptions) -> (r: Result<Regex, String>)
    ensures
        match r {
            Ok(re) => {
                &&& regex_pattern(re) == query_pattern(query@, opts)
                &&& regex_folds_case(re) == opts.ignore_case
                &&& query_fault(query@, opts) is None
                &&& opts.fixed_strings || regex_fault(query@, opts.ignore_case) is None
                &&& regex_fault(query_pattern(query@, opts), opts.ignore_case) is None
            },
            Err(e) => {
                let fault = query_fault(query@, opts);
                fault is Some && e@ == invalid_pattern(query@, fault->0)
            },
        },
{
    if !opts.fixed_strings {
        match compile(query, opts.ignore_case) {
            Ok(_) => {},
            Err(fault) => {
                return Err(pattern_error(query, fault.as_str()));
            },
        }
    }
    let mut pattern: String = if opts.fixed_strings {
        escape(query)
    } else {
        query.to_string()
    };
    if opts.whole_word {
        pattern = "\\b(?:".to_string().concat(pattern.as_str()).concat(")\\b");
    }
    if opts.whole_line {
        pattern = "^(?:".to_string().concat(pattern.as_str()).concat(")$");
    }
    match compile(pattern.as_str(), opts.ignore_case) {
        Ok(re) => Ok(re),
        Err(fault) => Err(pattern_error(query, fault.as_str())),
    }
}

/// Whether a line holds a match. With a matcher built under -F alone that is
/// so exactly where the query stands in the line, and with one built under -F
/// and -x exactly where the line is the query.
pub fn line_matches(re: &Regex, line: &str) -> (b: bool)
    ensures
        b == (spans(*re, line@).len() > 0),
        forall|query: Seq<char>, opts: MatchOptions|
            opts.fixed_strings && !opts.ignore_case && !opts.whole_word && !opts.whole_line
                && regex_folds_case(*re) == opts.ignore_case && regex_pattern(*re)
                == #[trigger] query_pattern(query, opts) ==> b == occurs_in(query, line@),
        forall|query: Seq<char>, opts: MatchOptions|
            opts.fixed_strings && !opts.ignore_case && !opts.whole_word && opts.whole_line
                && regex_folds_case(*re) == opts.ignore_case && regex_pattern(*re)
                == #[trigger] query_pattern(query, opts) ==> b == (line@ == query),
{
    is_match(re, line)
}

} // verus!
