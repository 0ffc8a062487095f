//! Amounts of data as people write them: a number and a unit.

use crate::decimal;
use crate::text;
use vstd::prelude::*;
use vstd::string::*;

verus! {

/// What is wrong with an amount.
#[derive(Debug, Clone)]
pub enum AmountFault {
    /// There is no letter in it.
    MissingUnit,
    /// What stands before the first letter is not a number.
    BadNumber(String),
    /// The number is below zero.
    Negative,
    /// The letters are not a unit.
    UnknownUnit(String),
}

/// What an amount comes to.
pub ghost enum Amount {
    Bytes(int),
    MissingUnit,
    BadNumber(Seq<char>),
    Negative,
    UnknownUnit(Seq<char>),
}

/// Where the first letter of a text stands, or its length.
pub open spec fn first_letter(s: Seq<char>) -> int
    decreases s.len(),
{
    if s.len() == 0 || text::alphabetic(s[0]) {
        0
    } else {
        1 + first_letter(s.drop_first())
    }
}

/// A text without a sign in front.
pub open spec fn unsigned(t: Seq<char>) -> Seq<char> {
    if t.len() > 0 && (t[0] == '+' || t[0] == '-') {
        t.drop_first()
    } else {
        t
    }
}

/// Where the first point of a text stands, or its length.
pub open spec fn first_point(u: Seq<char>) -> int
    decreases u.len(),
{
    if u.len() == 0 || u[0] == '.' {
        0
    } else {
        1 + first_point(u.drop_first())
    }
}

/// Decimal digits, all of it.
pub open spec fn is_digits(s: Seq<char>) -> bool {
    forall|i: int| 0 <= i < s.len() ==> '0' <= #[trigger] s[i] <= '9'
}

/// The values of decimal digits.
pub open spec fn digit_values(s: Seq<char>) -> Seq<u8> {
    s.map_values(|c: char| (c as int - 48) as u8)
}

/// What stands before the point.
pub open spec fn whole_part(u: Seq<char>) -> Seq<char> {
    u.take(first_point(u))
}

/// What stands behind the point.
pub open spec fn fraction_part(u: Seq<char>) -> Seq<char> {
    if first_point(u) < u.len() {
        u.skip(first_point(u) + 1)
    } else {
        seq![]
    }
}

/// A number without a sign: digits, perhaps with a point among, before or
/// behind them.
pub open spec fn is_number(u: Seq<char>) -> bool {
    &&& is_digits(whole_part(u))
    &&& is_digits(fraction_part(u))
    &&& whole_part(u).len() + fraction_part(u).len() > 0
}

/// By which power of two a unit multiplies.
pub open spec fn unit_power(unit: Seq<char>) -> Option<nat> {
    if unit == "B"@ {
        Some(0)
    } else if unit == "KB"@ {
        Some(10)
    } else if unit == "MB"@ {
        Some(20)
    } else if unit == "GB"@ {
        Some(30)
    } else if unit == "TB"@ {
        Some(40)
    } else {
        None
    }
}

/// What a number of some unit comes to, in bytes. A fraction of a byte is
/// dropped, and what is too large to count becomes the largest number of
/// bytes.
pub open spec fn amount_in(number: Seq<char>, unit: Seq<char>) -> Amount {
    let whole = digit_values(whole_part(unsigned(number)));
    let frac = digit_values(fraction_part(unsigned(number)));
    if !is_number(unsigned(number)) {
        Amount::BadNumber(number)
    } else if number[0] == '-' && !decimal::rounds_to_zero(whole, frac) {
        Amount::Negative
    } else {
        match unit_power(unit) {
            Some(m) => Amount::Bytes(decimal::scaled(whole, frac, m)),
            None => Amount::UnknownUnit(unit),
        }
    }
}

/// What an amount comes to: the number stands before the first letter, the
/// unit behind it, in any case.
pub open spec fn amount(s: Seq<char>) -> Amount {
    let at = first_letter(s);
    if at >= s.len() {
        Amount::MissingUnit
    } else {
        amount_in(s.take(at), text::upper(s.skip(at)))
    }
}

/// Where the first ASCII letter of a text stands, or its length.
pub open spec fn first_ascii_letter(s: Seq<char>) -> int
    decreases s.len(),
{
    if s.len() == 0 || ('a' <= s[0] <= 'z' || 'A' <= s[0] <= 'Z') {
        0
    } else {
        1 + first_ascii_letter(s.drop_first())
    }
}

/// What an amount written in ASCII comes to.
pub open spec fn ascii_amount(s: Seq<char>) -> Amount {
    let at = first_ascii_letter(s);
    if at >= s.len() {
        Amount::MissingUnit
    } else {
        amount_in(s.take(at), s.skip(at).map_values(|c: char| text::ascii_upper(c)))
    }
}

/// The result tells what an amount comes to.
pub open spec fn tells(r: Result<u64, AmountFault>, a: Amount) -> bool {
    match r {
        Ok(n) => a == Amount::Bytes(n as int),
        Err(AmountFault::MissingUnit) => a is MissingUnit,
        Err(AmountFault::BadNumber(t)) => a == Amount::BadNumber(t@),
        Err(AmountFault::Negative) => a is Negative,
        Err(AmountFault::UnknownUnit(t)) => a == Amount::UnknownUnit(t@),
    }
}

fn find_letter(chars: &Vec<char>) -> (at: usize)
    ensures
        at == first_letter(chars@),
        at <= chars.len(),
        text::all_ascii(chars@) ==> at == first_ascii_letter(chars@),
{
    let mut i: usize = 0;
    assert(chars@.skip(0) =~= chars@);
    while i < chars.len()
        invariant
            0 <= i <= chars.len(),
            first_letter(chars@) == i + first_letter(chars@.skip(i as int)),
            text::all_ascii(chars@) ==> first_ascii_letter(chars@) == i + first_ascii_letter(
                chars@.skip(i as int),
            ),
        decreases chars.len() - i,
    {
        proof {
            let rest = chars@.skip(i as int);
            assert(rest[0] == chars@[i as int]);
            assert(rest.drop_first() =~= chars@.skip(i + 1));
        }
        if chars[i].is_alphabetic() {
            return i;
        }
        i += 1;
    }
    i
}

/// Reads the digits from `lo` up to `hi`, if that is what stands there.
pub(crate) fn read_digits(chars: &Vec<char>, lo: usize, hi: usize) -> (r: Option<Vec<u8>>)
    requires
        lo <= hi <= chars.len(),
    ensures
        match r {
            Some(v) => is_digits(chars@.subrange(lo as int, hi as int)) && v@ == digit_values(
                chars@.subrange(lo as int, hi as int),
            ) && decimal::are_digits(v@),
            None => !is_digits(chars@.subrange(lo as int, hi as int)),
        },
{
    let ghost part = chars@.subrange(lo as int, hi as int);
    let mut out: Vec<u8> = Vec::new();
    let mut i: usize = lo;
    while i < hi
        invariant
            lo <= i <= hi <= chars.len(),
            part == chars@.subrange(lo as int, hi as int),
            out@ == digit_values(part).take(i - lo),
            forall|j: int| 0 <= j < i - lo ==> '0' <= #[trigger] part[j] <= '9',
        decreases hi - i,
    {
        let c: char = chars[i];
        assert(part[i - lo] == c);
        if !('0' <= c && c <= '9') {
            return None;
        }
        out.push((c as u32 - 48) as u8);
        proof {
            let all = digit_values(part);
            assert(all[i - lo] == (c as int - 48) as u8);
            assert(out@ =~= all.take(i - lo + 1));
        }
        i += 1;
    }
    proof {
        let all = digit_values(part);
        assert(all.take(hi - lo) =~= all);
        assert forall|j: int| 0 <= j < out@.len() implies (#[trigger] out@[j]) < 10 by {
            assert('0' <= part[j] <= '9');
        }
    }
    Some(out)
}

/// Finds what a number of some unit comes to. The unit is in upper case.
pub fn amount_of(number: &str, unit: &str) -> (r: Result<u64, AmountFault>)
    ensures
        tells(r, amount_in(number@, unit@)),
{
    let chars = text::to_chars(number);
    let n: usize = chars.len();
    let ghost u = unsigned(number@);
    let start: usize = if n > 0 && (chars[0] == '+' || chars[0] == '-') {
        1
    } else {
        0
    };
    assert(u =~= chars@.subrange(start as int, n as int));
    let mut point: usize = start;
    assert(u.skip(0) =~= u);
    while point < n && chars[point] != '.'
        invariant
            start <= point <= n == chars.len(),
            u == chars@.subrange(start as int, n as int),
            first_point(u) == (point - start) + first_point(u.skip(point - start)),
        decreases n - point,
    {
        proof {
            let rest = u.skip(point - start);
            assert(rest[0] == chars@[point as int]);
            assert(rest.drop_first() =~= u.skip(point + 1 - start));
        }
        point += 1;
    }
    proof {
        if point < n {
            assert(u.skip(point - start)[0] == chars@[point as int]);
        }
        assert(first_point(u) == point - start);
        assert(whole_part(u) =~= chars@.subrange(start as int, point as int));
    }
    let behind: usize = if point < n {
        point + 1
    } else {
        n
    };
    assert(fraction_part(u) =~= chars@.subrange(behind as int, n as int));
    let whole = read_digits(&chars, start, point);
    let frac = read_digits(&chars, behind, n);
    let count: usize = (point - start) + (n - behind);
    match (whole, frac) {
        (Some(whole), Some(frac)) if count > 0 => {
            if chars[0] == '-' && !decimal::is_tiny(&whole, &frac) {
                return Err(AmountFault::Negative);
            }
            let unit = unit.to_string();
            let power: usize = if unit == "B".to_string() {
                0
            } else if unit == "KB".to_string() {
                10
            } else if unit == "MB".to_string() {
                20
            } else if unit == "GB".to_string() {
                30
            } else if unit == "TB".to_string() {
                40
            } else {
                return Err(AmountFault::UnknownUnit(unit));
            };
            Ok(decimal::scale(&whole, &frac, power))
        },
        _ => Err(AmountFault::BadNumber(number.to_string())),
    }
}

/// Finds what an amount comes to.
pub fn parse_amount(s: &str) -> (r: Result<u64, AmountFault>)
    ensures
        tells(r, amount(s@)),
        text::all_ascii(s@) ==> tells(r, ascii_amount(s@)),
{
    let chars = text::to_chars(s);
    let at: usize = find_letter(&chars);
    if at >= chars.len() {
        return Err(AmountFault::MissingUnit);
    }
    let number = text::from_chars(&chars, 0, at);
    let suffix = text::from_chars(&chars, at, chars.len());
    assert(number@ =~= s@.take(at as int));
    assert(suffix@ =~= s@.skip(at as int));
    let unit = suffix.as_str().to_uppercase();
    proof {
        if text::all_ascii(s@) {
            assert forall|i: int| 0 <= i < suffix@.len() implies 128 > (
            #[trigger] suffix@[i] as int) by {
                assert(suffix@[i] == s@[at + i]);
            }
        }
    }
    amount_of(number.as_str(), unit.as_str())
}

} // verus!
