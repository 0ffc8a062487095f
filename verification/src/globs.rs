//! Shell-style name patterns.

use glob::Pattern;
use vstd::prelude::*;

verus! {

#[verifier::external_type_specification]
#[verifier::external_body]
pub struct ExPattern(glob::Pattern);

/// The text that a compiled pattern was made from.
pub uninterp spec fn glob_text(p: glob::Pattern) -> Seq<char>;

/// What `glob::Pattern::new` objects to in `text`; `None` where it compiles.
pub uninterp spec fn glob_fault(text: Seq<char>) -> Option<Seq<char>>;

/// Whether the pattern `text` matches the whole of `name`.
pub uninterp spec fn glob_matches(text: Seq<char>, name: Seq<char>, case_sensitive: bool) -> bool;

/// No bracket and no two stars in a row: such a text always compiles.
pub open spec fn is_simple_glob(text: Seq<char>) -> bool {
    &&& forall|i: int| 0 <= i < text.len() ==> text[i] != '['
    &&& forall|i: int|
        0 <= i < text.len() - 1 ==> !(#[trigger] text[i] == '*' && text[i + 1] == '*')
}

/// Calls `glob::Pattern::new`. The pattern keeps the text it was given. Only
/// an unclosed bracket or a run of stars can be at fault, so a text with
/// neither compiles; the wording of a fault is left to the crate.
#[verifier::external_body]
pub(crate) fn compile(text: &str) -> (r: Result<Pattern, String>)
    ensures
        match r {
            Ok(p) => glob_text(p) == text@ && glob_fault(text@) is None,
            Err(e) => glob_fault(text@) == Some(e@),
        },
        is_simple_glob(text@) ==> r is Ok,
{
    Pattern::new(text).map_err(|e| e.to_string())
}

/// Calls `glob::Pattern::matches_with`, with separators and leading dots
/// treated as any other character (what `Pattern::matches` does too). A lone
/// star matches every name.
#[verifier::external_body]
pub(crate) fn matches_name(p: &Pattern, name: &str, case_sensitive: bool) -> (b: bool)
    ensures
        b == glob_matches(glob_text(*p), name@, case_sensitive),
        glob_text(*p) == seq!['*'] ==> b,
{
    let options = glob::MatchOptions {
        case_sensitive,
        require_literal_separator: false,
        require_literal_leading_dot: false,
    };
    p.matches_with(name, options)
}

/// Some pattern of the list matches `name`.
pub open spec fn any_glob_matches(patterns: Seq<Pattern>, name: Seq<char>) -> bool {
    exists|i: int|
        0 <= i < patterns.len() && glob_matches(glob_text(#[trigger] patterns[i]), name, true)
}

/// Whether some pattern of the list matches `name`.
pub fn any_matches(patterns: &Vec<Pattern>, name: &str) -> (b: bool)
    ensures
        b == any_glob_matches(patterns@, name@),
{
    let mut i: usize = 0;
    while i < patterns.len()
        invariant
            0 <= i <= patterns.len(),
            forall|j: int|
                0 <= j < i ==> !glob_matches(glob_text(#[trigger] patterns[j]), name@, true),
        decreases patterns.len() - i,
    {
        if matches_name(&patterns[i], name, true) {
            assert(glob_matches(glob_text(patterns@[i as int]), name@, true));
            return true;
        }
        i += 1;
    }
    false
}

} // verus!
