//! Numbers as they are given on the command line.

use crate::amounts;
use crate::decimal;
use crate::text;
use vstd::prelude::*;
use vstd::string::*;

verus! {

/// A text without a plus sign in front.
pub open spec fn without_plus(s: Seq<char>) -> Seq<char> {
    if s.len() > 0 && s[0] == '+' {
        s.drop_first()
    } else {
        s
    }
}

/// The number that a text stands for: digits, perhaps behind a plus sign.
pub open spec fn number(s: Seq<char>) -> Option<int> {
    let body = without_plus(s);
    if body.len() > 0 && amounts::is_digits(body) {
        Some(decimal::digits_value(amounts::digit_values(body)))
    } else {
        None
    }
}

/// Reads a number, if the text stands for one and it fits.
pub fn parse_number(s: &str) -> (r: Option<u64>)
    ensures
        match r {
            Some(n) => number(s@) == Some(n as int),
            None => number(s@) matches Some(n) ==> n > u64::MAX,
        },
{
    let chars = text::to_chars(s);
    let n: usize = chars.len();
    let start: usize = if n > 0 && chars[0] == '+' {
        1
    } else {
        0
    };
    assert(without_plus(s@) =~= chars@.subrange(start as int, n as int));
    if start >= n {
        return None;
    }
    match amounts::read_digits(&chars, start, n) {
        Some(digits) => decimal::whole_value(&digits),
        None => None,
    }
}

/// What is said of a number out of its range.
pub open spec fn not_in_range(s: Seq<char>, max: int) -> Seq<char> {
    s + " is not in 1..="@ + decimal::decimal(max)
}

/// Reads a number of worker threads: at least one, since without a worker no
/// task is ever taken, and at most `max`.
pub fn parse_jobs(s: &str, max: u16) -> (r: Result<usize, String>)
    ensures
        match r {
            Ok(n) => number(s@) == Some(n as int) && 1 <= n <= max,
            Err(e) => e@ == not_in_range(s@, max as int) && (number(s@) matches Some(n) ==> !(1 <= n
                <= max)),
        },
{
    match parse_number(s) {
        Some(n) => if 1 <= n && n <= max as u64 {
            return Ok(n as usize);
        },
        None => {},
    }
    Err(s.to_string().concat(" is not in 1..=").concat(decimal::to_decimal(max as u128).as_str()))
}

/// The number of worker threads on a machine with so many processors: half of
/// them, but at least one and at most sixteen.
pub fn default_jobs(cpus: usize) -> (n: usize)
    ensures
        n == if cpus / 2 < 1 {
            1
        } else if cpus / 2 > 16 {
            16
        } else {
            cpus / 2
        },
        1 <= n <= 16,
{
    let half: usize = cpus / 2;
    if half < 1 {
        1
    } else if half > 16 {
        16
    } else {
        half
    }
}

} // verus!
