//! What holds of every report: which directories it shows, and how their sizes
//! are written.

use crate::ardisk::report;
use crate::ardisk::report::ReportOptions;
use crate::decimal;
use crate::paint::Style;
use crate::paths;
use vstd::prelude::*;

verus! {

/// A report goes from the largest directory to the smallest, and among those of
/// one size by the order in which they came in. It shows no more than
/// were asked for, and nothing that is not larger than the threshold, lies too
/// deep or is not under the root. A directory is left out only if it is one of
/// those, if none of its files matched, or if as many as were asked for are
/// shown and none of them is smaller.
pub proof fn reports_show_the_largest(
    shown: Seq<usize>,
    entries: Seq<(Seq<char>, u64)>,
    opts: ReportOptions,
    base: Seq<char>,
    content: Map<Seq<char>, u64>,
)
    requires
        report::is_selection(shown, entries, opts, base, content),
        entries.len() <= usize::MAX,
    ensures
        shown.len() <= opts.top,
        forall|a: int, b: int|
            0 <= a < b < shown.len() ==> (#[trigger] shown[a]) != (#[trigger] shown[b])
                && entries[shown[a] as int].1 >= entries[shown[b] as int].1 && (
            entries[shown[a] as int].1 == entries[shown[b] as int].1 ==> shown[a] < shown[b]),
        forall|a: int|
            0 <= a < shown.len() ==> {
                let e = entries[(#[trigger] shown[a]) as int];
                &&& shown[a] < entries.len()
                &&& opts.threshold matches Some(min) ==> e.1 > min
                &&& opts.max_depth matches Some(max) ==> paths::depth(e.0) <= paths::depth(base)
                    + max
                &&& paths::is_under(e.0, base)
                &&& opts.filtered && opts.threshold is None ==> content.contains_key(e.0)
                    && content[e.0] >= 1
            },
        forall|i: int|
            0 <= i < entries.len() && !shown.contains(i as usize) ==> {
                let e = #[trigger] entries[i];
                ||| opts.threshold is Some && e.1 <= opts.threshold->0
                ||| opts.max_depth is Some && paths::depth(e.0) > paths::depth(base)
                    + opts.max_depth->0
                ||| !paths::is_under(e.0, base)
                ||| opts.filtered && opts.threshold is None && (!content.contains_key(e.0)
                    || content[e.0] == 0)
                ||| shown.len() == opts.top && forall|a: int|
                    0 <= a < shown.len() ==> entries[(#[trigger] shown[a]) as int].1 >= e.1
            },
{
    assert forall|a: int, b: int| 0 <= a < b < shown.len() implies (#[trigger] shown[a]) != (
    #[trigger] shown[b]) && entries[shown[a] as int].1 >= entries[shown[b] as int].1 && (
    entries[shown[a] as int].1 == entries[shown[b] as int].1 ==> shown[a] < shown[b]) by {
        assert(report::ranks_before(entries, shown[a] as int, shown[b] as int));
    }
    assert forall|i: int| 0 <= i < entries.len() && !shown.contains(i as usize) implies ({
        let e = #[trigger] entries[i];
        ||| opts.threshold is Some && e.1 <= opts.threshold->0
        ||| opts.max_depth is Some && paths::depth(e.0) > paths::depth(base) + opts.max_depth->0
        ||| !paths::is_under(e.0, base)
        ||| opts.filtered && opts.threshold is None && (!content.contains_key(e.0)
            || content[e.0] == 0)
        ||| shown.len() == opts.top && forall|a: int|
            0 <= a < shown.len() ==> entries[(#[trigger] shown[a]) as int].1 >= e.1
    }) by {
        let e = entries[i];
        if report::is_eligible(opts, base, content, e.0, e.1) {
            assert forall|a: int| 0 <= a < shown.len() implies entries[(
            #[trigger] shown[a]) as int].1 >= e.1 by {
                assert(report::ranks_before(entries, shown[a] as int, i));
            }
        }
    }
}

proof fn lemma_half_even(n: int, d: int)
    requires
        d > 0,
        n >= 0,
    ensures
        -d <= 2 * (decimal::half_even(n, d) * d - n) <= d,
{
    let (q, r) = (n / d, n % d);
    vstd::arithmetic::div_mod::lemma_fundamental_div_mod(n, d);
    assert(0 <= r < d);
    assert((q + 1) * d == q * d + d) by (nonlinear_arith);
    assert(d * q == q * d) by (nonlinear_arith);
}

/// A number of bytes below 2^53 is written in the largest of the five units of
/// which it holds at least one: bytes as they are, the others in hundredths of
/// the unit, off by half of one at most.
pub proof fn sizes_are_written_in_the_largest_unit(bytes: int) -> (hundredths: int)
    requires
        0 <= bytes < 0x20_0000_0000_0000,
    ensures
        ({
            let text = report::size_text(bytes);
            let digits = report::two_decimals(hundredths);
            if bytes < 1024 {
                text == decimal::decimal(bytes) + " B"@
            } else if bytes < 1024 * 1024 {
                text == digits + " KB"@ && -1024 <= 2 * (hundredths * 1024 - 100 * bytes) <= 1024
            } else if bytes < 1024 * 1024 * 1024 {
                text == digits + " MB"@ && -1048576 <= 2 * (hundredths * 1048576 - 100 * bytes)
                    <= 1048576
            } else if bytes < 1024 * 1024 * 1024 * 1024 {
                text == digits + " GB"@ && -1073741824 <= 2 * (hundredths * 1073741824 - 100
                    * bytes) <= 1073741824
            } else {
                text == digits + " TB"@ && -1099511627776 <= 2 * (hundredths * 1099511627776 - 100
                    * bytes) <= 1099511627776
            }
        }),
{
    decimal::lemma_spacing(bytes);
    assert(decimal::nearest_double(bytes) == bytes) by {
        assert(bytes / 1 == bytes && bytes % 1 == 0);
    }
    let unit = if bytes < 1024 * 1024 {
        1024int
    } else if bytes < 1024 * 1024 * 1024 {
        1048576int
    } else if bytes < 1024 * 1024 * 1024 * 1024 {
        1073741824int
    } else {
        1099511627776int
    };
    lemma_half_even(bytes * 100, unit);
    decimal::half_even(bytes * 100, unit)
}

/// Two decimals are written behind a point: without it, the digits are those of
/// the number of hundredths.
pub proof fn two_decimals_stand_behind_the_point(hundredths: int)
    requires
        hundredths >= 100,
    ensures
        ({
            let t = report::two_decimals(hundredths);
            let n = t.len();
            &&& n >= 4
            &&& t[n - 3] == '.'
            &&& t.take(n - 3) + t.skip(n - 2) == decimal::decimal(hundredths)
        }),
{
    let t = report::two_decimals(hundredths);
    let n = t.len();
    let whole = decimal::decimal(hundredths / 100);
    assert(t.take(n - 3) =~= whole);
    reveal_with_fuel(decimal::decimal, 3);
    assert(hundredths / 10 / 10 == hundredths / 100);
    assert(whole.len() >= 1);
    assert(decimal::decimal(hundredths / 10) == whole.push(decimal::digit((hundredths / 10) % 10)));
    assert(t.take(n - 3) + t.skip(n - 2) =~= decimal::decimal(hundredths));
}

/// A size is set at the right of a column of ten characters: there are blanks
/// before it and nothing else, and nothing is cut off.
pub proof fn sizes_are_set_to_the_right(s: Seq<char>)
    ensures
        ({
            let p = report::padded(s);
            let n = p.len() - s.len();
            &&& p.len() >= 10 && p.len() >= s.len()
            &&& p.len() == 10 || p.len() == s.len()
            &&& p.skip(n) == s
            &&& forall|i: int| 0 <= i < n ==> #[trigger] p[i] == ' '
        }),
{
    let p = report::padded(s);
    assert(p.skip(p.len() - s.len()) =~= s);
}

/// Larger units stand out in colours: megabytes in green, gigabytes in cyan, and
/// what is larger in bold magenta. Bytes and kilobytes are plain.
pub proof fn units_have_their_colours(bytes: int)
    ensures
        bytes < 1024 * 1024 ==> report::size_style(bytes) is None,
        1024 * 1024 <= bytes < 1024 * 1024 * 1024 ==> report::size_style(bytes) == Some(
            Style::Green,
        ),
        1024 * 1024 * 1024 <= bytes < 1024 * 1024 * 1024 * 1024 ==> report::size_style(bytes)
            == Some(Style::Cyan),
        1024 * 1024 * 1024 * 1024 <= bytes ==> report::size_style(bytes) == Some(
            Style::MagentaBold,
        ),
{
}

/// Rounding goes to the nearest whole number, and halfway between two of them to
/// the even one.
pub proof fn halves_go_to_the_even_number(n: int, d: int)
    requires
        d > 0,
        n >= 0,
    ensures
        ({
            let r = decimal::half_even(n, d);
            &&& -d <= 2 * (r * d - n) <= d
            &&& 2 * (r * d - n) == d || 2 * (r * d - n) == -d ==> r % 2 == 0
        }),
{
    lemma_half_even(n, d);
    let (q, r) = (n / d, n % d);
    vstd::arithmetic::div_mod::lemma_fundamental_div_mod(n, d);
    assert((q + 1) * d == q * d + d) by (nonlinear_arith);
    assert(d * q == q * d) by (nonlinear_arith);
}

/// A number of 2^53 bytes or more is first taken to the nearest number with 53
/// significant bits, and then written in terabytes.
pub proof fn huge_sizes_are_rounded_first(bytes: int) -> (hundredths: int)
    requires
        bytes >= 0x20_0000_0000_0000,
    ensures
        ({
            let gap = decimal::spacing(bytes);
            let near = decimal::nearest_double(bytes);
            &&& gap * 0x10_0000_0000_0000 <= bytes < gap * 0x20_0000_0000_0000
            &&& -gap <= 2 * (near - bytes) <= gap
            &&& near % gap == 0
            &&& report::size_text(bytes) == report::two_decimals(hundredths) + " TB"@
            &&& -1099511627776 <= 2 * (hundredths * 1099511627776 - 100 * near) <= 1099511627776
        }),
{
    let gap = decimal::spacing(bytes);
    let near = decimal::nearest_double(bytes);
    decimal::lemma_spacing(bytes);
    lemma_half_even(bytes, gap);
    let k = decimal::half_even(bytes, gap);
    vstd::arithmetic::div_mod::lemma_mod_multiples_basic(k, gap);
    assert(near >= 0);
    lemma_half_even(near * 100, 1099511627776);
    decimal::half_even(near * 100, 1099511627776)
}

} // verus!
