//! The report: which directories are shown, in what order, and how.

use crate::ardisk::size_map::SizeMap;
use crate::decimal;
use crate::paint;
use crate::paint::Style;
use crate::paths;
use vstd::prelude::*;
use vstd::string::*;

verus! {

pub const KB: u64 = 1024;

pub const MB: u64 = 1_048_576;

pub const GB: u64 = 1_073_741_824;

pub const TB: u64 = 1_099_511_627_776;

/// A number of hundredths, written with two decimals.
pub open spec fn two_decimals(hundredths: int) -> Seq<char> {
    decimal::decimal(hundredths / 100) + seq![
        '.',
        decimal::digit((hundredths / 10) % 10),
        decimal::digit(hundredths % 10),
    ]
}

/// A number of bytes in a unit, to two decimals: the double-precision number
/// nearest to it, divided, and rounded half to even.
pub open spec fn in_unit(bytes: int, unit: int) -> Seq<char> {
    two_decimals(decimal::half_even(decimal::nearest_double(bytes) * 100, unit))
}

/// A number of bytes in the largest unit of which it holds at least one.
pub open spec fn size_text(bytes: int) -> Seq<char> {
    if bytes >= TB {
        in_unit(bytes, TB as int) + " TB"@
    } else if bytes >= GB {
        in_unit(bytes, GB as int) + " GB"@
    } else if bytes >= MB {
        in_unit(bytes, MB as int) + " MB"@
    } else if bytes >= KB {
        in_unit(bytes, KB as int) + " KB"@
    } else {
        decimal::decimal(bytes) + " B"@
    }
}

/// The colour of a size, by its unit.
pub open spec fn size_style(bytes: int) -> Option<Style> {
    if bytes >= TB {
        Some(Style::MagentaBold)
    } else if bytes >= GB {
        Some(Style::Cyan)
    } else if bytes >= MB {
        Some(Style::Green)
    } else {
        None
    }
}

fn write_two_decimals(hundredths: u128) -> (r: String)
    ensures
        r@ == two_decimals(hundredths as int),
{
    let mut out = decimal::to_decimal(hundredths / 100);
    out.push('.');
    out.push(decimal::digit_char(((hundredths / 10) % 10) as u8));
    out.push(decimal::digit_char((hundredths % 10) as u8));
    assert(out@ =~= two_decimals(hundredths as int));
    out
}

fn write_in_unit(bytes: u64, unit: u64) -> (r: String)
    requires
        unit > 0,
    ensures
        r@ == in_unit(bytes as int, unit as int),
{
    let nearest: u128 = decimal::round_to_double(bytes);
    write_two_decimals(decimal::div_half_even(nearest * 100, unit as u128))
}

/// Writes a number of bytes for a human reader, in B, KB, MB, GB or TB, the
/// larger ones in colour.
pub fn format_size(bytes: u64) -> (r: String)
    ensures
        match size_style(bytes as int) {
            Some(style) => paint::is_painted(r@, size_text(bytes as int), style),
            None => r@ == size_text(bytes as int),
        },
{
    if bytes >= TB {
        let text = write_in_unit(bytes, TB).concat(" TB");
        paint::paint(text.as_str(), Style::MagentaBold)
    } else if bytes >= GB {
        let text = write_in_unit(bytes, GB).concat(" GB");
        paint::paint(text.as_str(), Style::Cyan)
    } else if bytes >= MB {
        let text = write_in_unit(bytes, MB).concat(" MB");
        paint::paint(text.as_str(), Style::Green)
    } else if bytes >= KB {
        write_in_unit(bytes, KB).concat(" KB")
    } else {
        decimal::to_decimal(bytes as u128).concat(" B")
    }
}

/// A text with blanks before it, up to a width of ten characters.
pub open spec fn padded(s: Seq<char>) -> Seq<char> {
    if s.len() >= 10 {
        s
    } else {
        Seq::new((10 - s.len()) as nat, |i: int| ' ') + s
    }
}

fn pad(s: &str) -> (r: String)
    ensures
        r@ == padded(s@),
{
    let n: usize = s.unicode_len();
    let mut out = String::new();
    let mut i: usize = n;
    while i < 10
        invariant
            n <= i,
            n < 10 ==> i <= 10,
            n >= 10 ==> i == n,
            out@ == Seq::new((i - n) as nat, |j: int| ' '),
        decreases 10 - i,
    {
        out.push(' ');
        i += 1;
        assert(out@ =~= Seq::new((i - n) as nat, |j: int| ' '));
    }
    out.append(s);
    assert(out@ =~= padded(s@));
    out
}

/// The line for a directory: its size, at the right of a column, and its path.
pub fn report_line(bytes: u64, path: &str) -> (r: String)
    ensures
        exists|size: Seq<char>|
            (match size_style(bytes as int) {
                Some(style) => paint::is_painted(size, size_text(bytes as int), style),
                None => size == size_text(bytes as int),
            }) && r@ == #[trigger] padded(size) + "  "@ + path@,
{
    let size = format_size(bytes);
    let r = pad(size.as_str()).concat("  ").concat(path);
    assert(r@ == padded(size@) + "  "@ + path@);
    r
}

/// What is asked of the report.
pub struct ReportOptions {
    /// How many directories are shown at most.
    pub top: usize,
    /// How far below the root a directory may lie.
    pub max_depth: Option<usize>,
    /// Only directories larger than this size are shown.
    pub threshold: Option<u64>,
    /// Only some files were counted.
    pub filtered: bool,
}

/// A directory may be shown: it is large enough, not too deep, and, where only
/// some files were counted and no size was asked for, it holds some of them.
pub open spec fn is_eligible(
    opts: ReportOptions,
    base: Seq<char>,
    content: Map<Seq<char>, u64>,
    path: Seq<char>,
    size: u64,
) -> bool {
    &&& opts.threshold is None && opts.filtered ==> content.contains_key(path) && content[path] > 0
    &&& opts.threshold matches Some(min) ==> size > min
    &&& paths::is_under(path, base)
    &&& opts.max_depth matches Some(max) ==> paths::depth(path) - paths::depth(base) <= max
}

/// Entry `i` is shown before entry `j`: it is larger, or came in earlier.
pub open spec fn ranks_before(entries: Seq<(Seq<char>, u64)>, i: int, j: int) -> bool {
    entries[i].1 > entries[j].1 || (entries[i].1 == entries[j].1 && i < j)
}

/// The shown entries are in order, may all be shown, and no more than asked
/// for; and every other that may be shown would come after them.
pub open spec fn is_selection(
    shown: Seq<usize>,
    entries: Seq<(Seq<char>, u64)>,
    opts: ReportOptions,
    base: Seq<char>,
    content: Map<Seq<char>, u64>,
) -> bool {
    &&& shown.len() <= opts.top
    &&& forall|a: int|
        0 <= a < shown.len() ==> (#[trigger] shown[a]) < entries.len() && is_eligible(
            opts,
            base,
            content,
            entries[shown[a] as int].0,
            entries[shown[a] as int].1,
        )
    &&& forall|a: int, b: int|
        0 <= a < b < shown.len() ==> ranks_before(
            entries,
            #[trigger] shown[a] as int,
            #[trigger] shown[b] as int,
        )
    &&& forall|i: int|
        0 <= i < entries.len() && is_eligible(
            opts,
            base,
            content,
            (#[trigger] entries[i]).0,
            entries[i].1,
        ) && !shown.contains(i as usize) ==> shown.len() == opts.top && forall|a: int|
            0 <= a < shown.len() ==> ranks_before(entries, #[trigger] shown[a] as int, i)
}

/// Whether a pair of numbers comes before another, or is the same.
pub open spec fn pair_le(a: (u64, usize), b: (u64, usize)) -> bool {
    a.0 < b.0 || (a.0 == b.0 && a.1 <= b.1)
}

/// `Vec::sort_unstable` puts pairs of numbers in ascending order: by the first
/// number, then by the second.
#[verifier::external_body]
fn sort_pairs(v: &mut Vec<(u64, usize)>)
    ensures
        final(v)@.to_multiset() == old(v)@.to_multiset(),
        forall|i: int, j: int|
            0 <= i < j < final(v)@.len() ==> pair_le(
                #[trigger] final(v)@[i],
                #[trigger] final(v)@[j],
            ),
{
    v.sort_unstable();
}

fn eligible(
    opts: &ReportOptions,
    base: &str,
    content: &SizeMap,
    path: &str,
    size: u64,
) -> (b: bool)
    requires
        content.wf(),
        paths::tidied(path@) == path@,
    ensures
        b == is_eligible(*opts, base@, content@, path@, size),
{
    if opts.threshold.is_none() && opts.filtered {
        match content.get(path) {
            Some(n) => if n == 0 {
                return false;
            },
            None => {
                return false;
            },
        }
    }
    if let Some(min) = opts.threshold {
        if size <= min {
            return false;
        }
    }
    if !paths::lies_under(path, base) {
        return false;
    }
    match opts.max_depth {
        Some(max) => {
            let here: u128 = paths::depth_of(path);
            let there: u128 = paths::depth_of(base);
            here <= there || here - there <= max as u128
        },
        None => true,
    }
}

/// Chooses the directories to show: the largest of those that may be shown, in
/// descending order of size. What comes back are their places in `totals`.
pub fn select_report(
    totals: &SizeMap,
    content: &SizeMap,
    base_path: &str,
    opts: &ReportOptions,
) -> (r: Vec<usize>)
    requires
        totals.wf(),
        content.wf(),
    ensures
        is_selection(r@, totals.entries(), *opts, paths::tidied(base_path@), content@),
{
    let tidy_base = paths::tidy(base_path);
    let base = tidy_base.as_str();
    let ghost entries = totals.entries();
    let n: usize = totals.len();
    let mut keys: Vec<(u64, usize)> = Vec::new();
    let mut i: usize = 0;
    while i < n
        invariant
            totals.wf(),
            content.wf(),
            entries == totals.entries(),
            n == entries.len(),
            0 <= i <= n,
            forall|a: int|
                0 <= a < keys@.len() ==> {
                    let k = #[trigger] keys@[a];
                    &&& k.1 < i
                    &&& k.0 == u64::MAX - entries[k.1 as int].1
                    &&& is_eligible(
                        *opts,
                        base@,
                        content@,
                        entries[k.1 as int].0,
                        entries[k.1 as int].1,
                    )
                },
            forall|j: int|
                0 <= j < i && is_eligible(
                    *opts,
                    base@,
                    content@,
                    (#[trigger] entries[j]).0,
                    entries[j].1,
                ) ==> keys@.contains(((u64::MAX - entries[j].1) as u64, j as usize)),
            forall|a: int, b: int|
                0 <= a < b < keys@.len() ==> (#[trigger] keys@[a]).1 < (#[trigger] keys@[b]).1,
        decreases n - i,
    {
        let size: u64 = totals.size_at(i);
        let ghost before = keys@;
        proof {
            totals.entries_list_the_map();
            assert(paths::tidied(entries[i as int].0) == entries[i as int].0);
        }
        if eligible(opts, base, content, totals.path_at(i), size) {
            keys.push((u64::MAX - size, i));
            assert(keys@[keys@.len() - 1] == ((u64::MAX - entries[i as int].1) as u64, i));
        }
        proof {
            assert forall|j: int|
                0 <= j < i + 1 && is_eligible(
                    *opts,
                    base@,
                    content@,
                    (#[trigger] entries[j]).0,
                    entries[j].1,
                ) implies keys@.contains(((u64::MAX - entries[j].1) as u64, j as usize)) by {
                if j < i {
                    let k = ((u64::MAX - entries[j].1) as u64, j as usize);
                    assert(before.contains(k));
                    let a = choose|a: int| 0 <= a < before.len() && before[a] == k;
                    assert(keys@[a] == k);
                }
            }
        }
        i += 1;
    }
    let ghost unsorted = keys@;
    sort_pairs(&mut keys);
    proof {
        lemma_same_pairs(unsorted, keys@);
    }
    let mut shown: Vec<usize> = Vec::new();
    let mut a: usize = 0;
    while a < keys.len() && a < opts.top
        invariant
            0 <= a <= keys@.len(),
            a <= opts.top,
            shown@.len() == a,
            forall|b: int| 0 <= b < a ==> #[trigger] shown@[b] == keys@[b].1,
        decreases keys.len() - a,
    {
        shown.push(keys[a].1);
        a += 1;
    }
    proof {
        assert forall|x: int, y: int| 0 <= x < y < shown@.len() implies ranks_before(
            entries,
            #[trigger] shown@[x] as int,
            #[trigger] shown@[y] as int,
        ) by {
            assert(pair_le(keys@[x], keys@[y]));
            assert(unsorted.contains(keys@[x]) && unsorted.contains(keys@[y]));
            assert(keys@[x].1 != keys@[y].1);
        }
        assert forall|x: int| 0 <= x < shown@.len() implies (#[trigger] shown@[x]) < entries.len()
            && is_eligible(
            *opts,
            base@,
            content@,
            entries[shown@[x] as int].0,
            entries[shown@[x] as int].1,
        ) by {
            assert(unsorted.contains(keys@[x]));
        }
        assert forall|j: int|
            0 <= j < entries.len() && is_eligible(
                *opts,
                base@,
                content@,
                (#[trigger] entries[j]).0,
                entries[j].1,
            ) && !shown@.contains(j as usize) implies shown@.len() == opts.top && forall|x: int|
            0 <= x < shown@.len() ==> ranks_before(entries, #[trigger] shown@[x] as int, j) by {
            let k = ((u64::MAX - entries[j].1) as u64, j as usize);
            assert(unsorted.contains(k));
            assert(keys@.contains(k));
            let p = choose|p: int| 0 <= p < keys@.len() && keys@[p] == k;
            if p < shown@.len() {
                assert(shown@[p] == j as usize);
                assert(shown@.contains(j as usize));
            }
            assert forall|x: int| 0 <= x < shown@.len() implies ranks_before(
                entries,
                #[trigger] shown@[x] as int,
                j,
            ) by {
                assert(pair_le(keys@[x], keys@[p]));
                assert(unsorted.contains(keys@[x]));
                assert(shown@[x] != j as usize);
            }
        }
    }
    shown
}

/// Sorting keeps the pairs, and keeps them apart.
proof fn lemma_same_pairs(a: Seq<(u64, usize)>, b: Seq<(u64, usize)>)
    requires
        a.to_multiset() == b.to_multiset(),
        forall|i: int, j: int|
            0 <= i < j < a.len() ==> (#[trigger] a[i]).1 < (#[trigger] a[j]).1,
    ensures
        forall|k: (u64, usize)| #[trigger] a.contains(k) == b.contains(k),
        forall|i: int, j: int|
            0 <= i < j < b.len() ==> (#[trigger] b[i]).1 != (#[trigger] b[j]).1,
{
    broadcast use vstd::seq_lib::group_to_multiset_ensures;

    assert forall|k: (u64, usize)| #[trigger] a.contains(k) == b.contains(k) by {
        assert(a.contains(k) == (a.to_multiset().count(k) > 0));
        assert(b.contains(k) == (b.to_multiset().count(k) > 0));
    }
    assert forall|i: int, j: int| 0 <= i < j < b.len() implies (#[trigger] b[i]).1 != (
    #[trigger] b[j]).1 by {
        if b[i].1 == b[j].1 {
            assert(b.contains(b[i]) && b.contains(b[j]));
            assert(a.contains(b[i]) && a.contains(b[j]));
            let x = choose|x: int| 0 <= x < a.len() && a[x] == b[i];
            let y = choose|y: int| 0 <= y < a.len() && a[y] == b[j];
            assert(x == y);
            let k = b[i];
            assert(b[j] == k);
            lemma_count_two(b, k, i, j);
            lemma_count_one(a, k, x);
        }
    }
}

proof fn lemma_count_two(b: Seq<(u64, usize)>, k: (u64, usize), i: int, j: int)
    requires
        0 <= i < j < b.len(),
        b[i] == k,
        b[j] == k,
    ensures
        b.to_multiset().count(k) >= 2,
{
    broadcast use vstd::seq_lib::group_to_multiset_ensures;

    let rest = b.remove(j);
    assert(rest[i] == k);
    assert(rest.contains(k));
    assert(rest.to_multiset().count(k) >= 1);
    assert(rest.to_multiset() =~= b.to_multiset().remove(k));
}

proof fn lemma_count_one(a: Seq<(u64, usize)>, k: (u64, usize), x: int)
    requires
        0 <= x < a.len(),
        a[x] == k,
        forall|i: int, j: int|
            0 <= i < j < a.len() ==> (#[trigger] a[i]).1 < (#[trigger] a[j]).1,
    ensures
        a.to_multiset().count(k) <= 1,
{
    broadcast use vstd::seq_lib::group_to_multiset_ensures;

    let rest = a.remove(x);
    assert(!rest.contains(k)) by {
        if rest.contains(k) {
            let y = choose|y: int| 0 <= y < rest.len() && rest[y] == k;
            if y < x {
                assert(a[y] == k);
            } else {
                assert(a[y + 1] == k);
            }
        }
    }
    assert(rest.to_multiset().count(k) == 0);
    assert(rest.to_multiset() =~= a.to_multiset().remove(k));
}

/// --summarize: the recursive size of the root, zero if it was never scanned.
pub fn root_total(totals: &SizeMap, base: &str) -> (n: u64)
    requires
        totals.wf(),
    ensures
        n == if totals@.contains_key(paths::tidied(base@)) {
            totals@[paths::tidied(base@)]
        } else {
            0
        },
{
    match totals.get(base) {
        Some(n) => n,
        None => 0,
    }
}

} // verus!
