//! What holds of texts, names and numbers however they are put together.

use crate::amounts;
use crate::amounts::Amount;
use crate::decimal;
use crate::numbers;
use crate::paths;
use crate::text;
use vstd::prelude::*;
use vstd::utf8::*;

verus! {

/// A boundary within a part of a text is one of the whole text.
proof fn lemma_boundary_in_part(bytes: Seq<u8>, a: int, b: int, c: int)
    requires
        valid_utf8(bytes),
        0 <= a <= b <= c <= bytes.len(),
        is_char_boundary(bytes, a),
        is_char_boundary(bytes, b),
        is_char_boundary(bytes, c),
    ensures
        valid_utf8(bytes.subrange(a, c)),
        is_char_boundary(bytes.subrange(a, c), b - a),
{
    let front = bytes.subrange(0, c);
    let part = bytes.subrange(a, c);
    valid_utf8_split(bytes, c);
    is_char_boundary_start_end_of_seq(front);
    if a < c {
        is_char_boundary_iff_not_is_continuation_byte(bytes, a);
        assert(front[a] == bytes[a]);
        is_char_boundary_iff_not_is_continuation_byte(front, a);
    }
    valid_utf8_split(front, a);
    assert(front.subrange(a, c) =~= part);
    is_char_boundary_start_end_of_seq(part);
    if b < c {
        is_char_boundary_iff_not_is_continuation_byte(bytes, b);
        assert(part[b - a] == bytes[b]);
        is_char_boundary_iff_not_is_continuation_byte(part, b - a);
    }
}

/// A part of a text that is cut out between two boundaries has exactly the
/// bytes that stand there.
pub proof fn slices_hold_the_bytes(s: Seq<char>, lo: int, hi: int)
    requires
        0 <= lo <= hi <= encode_utf8(s).len(),
        is_char_boundary(encode_utf8(s), lo),
        is_char_boundary(encode_utf8(s), hi),
    ensures
        encode_utf8(text::byte_slice(s, lo, hi)) == encode_utf8(s).subrange(lo, hi),
        lo == hi ==> text::byte_slice(s, lo, hi).len() == 0,
        lo == 0 && hi == encode_utf8(s).len() ==> text::byte_slice(s, lo, hi) == s,
{
    let bytes = encode_utf8(s);
    encode_utf8_valid_utf8(s);
    lemma_boundary_in_part(bytes, lo, lo, hi);
    decode_utf8_encode_utf8(bytes.subrange(lo, hi));
    if lo == hi {
        assert(bytes.subrange(lo, hi) =~= Seq::<u8>::empty());
    }
    if lo == 0 && hi == bytes.len() {
        assert(bytes.subrange(lo, hi) =~= bytes);
        encode_utf8_decode_utf8(s);
    }
}

/// Parts of a text that touch make up the part from the start of the one to the
/// end of the other.
pub proof fn slices_that_touch_join(s: Seq<char>, a: int, b: int, c: int)
    requires
        0 <= a <= b <= c <= encode_utf8(s).len(),
        is_char_boundary(encode_utf8(s), a),
        is_char_boundary(encode_utf8(s), b),
        is_char_boundary(encode_utf8(s), c),
    ensures
        text::byte_slice(s, a, b) + text::byte_slice(s, b, c) == text::byte_slice(s, a, c),
{
    let bytes = encode_utf8(s);
    encode_utf8_valid_utf8(s);
    lemma_boundary_in_part(bytes, a, b, c);
    let part = bytes.subrange(a, c);
    decode_utf8_split(part, b - a);
    assert(part.subrange(0, b - a) =~= bytes.subrange(a, b));
    assert(part.subrange(b - a, part.len() as int) =~= bytes.subrange(b, c));
}

/// The terminator of a line, a line feed with or without a carriage return
/// before it, does not belong to it, and nothing else is cut off.
pub proof fn terminators_do_not_belong_to_lines(s: Seq<char>)
    requires
        s.len() == 0 || (s.last() != '\n' && s.last() != '\r'),
    ensures
        text::without_terminator(s) == s,
        text::without_terminator(s.push('\n')) == s,
        text::without_terminator(s.push('\r').push('\n')) == s,
        text::without_terminator(s.push('\r')) == s.push('\r'),
        text::without_terminator(s.push('\n').push('\n')) == s.push('\n'),
{
    assert(s.push('\n').drop_last() =~= s);
    assert(s.push('\r').push('\n').drop_last() =~= s.push('\r'));
    assert(s.push('\r').drop_last() =~= s);
    assert(s.push('\n').push('\n').drop_last() =~= s.push('\n'));
}

/// Among the ASCII characters, the blank and the five from the tab to the
/// carriage return are white space.
pub proof fn ascii_white_space(c: char)
    requires
        (c as int) < 128,
    ensures
        text::is_space(c) <==> c == ' ' || c == '\t' || c == '\n' || c as int == 0xb || c as int
            == 0xc || c == '\r',
{
}

/// Beyond the ASCII characters, white space is the next line, the spaces of
/// various widths, and the separators of lines and paragraphs.
pub proof fn further_white_space(c: char)
    requires
        (c as int) >= 128,
    ensures
        text::is_space(c) <==> c == '\u{85}' || c == '\u{a0}' || c == '\u{1680}' || c == '\u{2000}'
            || c == '\u{2001}' || c == '\u{2002}' || c == '\u{2003}' || c == '\u{2004}' || c
            == '\u{2005}' || c == '\u{2006}' || c == '\u{2007}' || c == '\u{2008}' || c
            == '\u{2009}' || c == '\u{200a}' || c == '\u{2028}' || c == '\u{2029}' || c
            == '\u{202f}' || c == '\u{205f}' || c == '\u{3000}',
{
}

/// A text without the white space at its end is what stands before that white
/// space.
pub proof fn ends_are_trimmed(s: Seq<char>)
    ensures
        ({
            let r = text::trimmed_end(s);
            &&& r.is_prefix_of(s)
            &&& r.len() == 0 || !text::is_space(r.last())
            &&& forall|i: int| r.len() <= i < s.len() ==> text::is_space(#[trigger] s[i])
        }),
    decreases s.len(),
{
    if s.len() > 0 && text::is_space(s.last()) {
        ends_are_trimmed(s.drop_last());
        let r = text::trimmed_end(s);
        assert forall|i: int| r.len() <= i < s.len() implies text::is_space(#[trigger] s[i]) by {
            if i < s.len() - 1 {
                assert(s.drop_last()[i] == s[i]);
            }
        }
    }
}

proof fn lemma_start_is_trimmed(s: Seq<char>) -> (k: int)
    ensures
        0 <= k <= s.len(),
        text::trimmed_start(s) == s.skip(k),
        k < s.len() ==> !text::is_space(s[k]),
        forall|i: int| 0 <= i < k ==> text::is_space(#[trigger] s[i]),
    decreases s.len(),
{
    if s.len() > 0 && text::is_space(s[0]) {
        let rest = s.drop_first();
        let j = lemma_start_is_trimmed(rest);
        assert(rest.skip(j) =~= s.skip(j + 1));
        assert forall|i: int| 0 <= i < j + 1 implies text::is_space(#[trigger] s[i]) by {
            if i > 0 {
                assert(rest[i - 1] == s[i]);
            }
        }
        j + 1
    } else {
        assert(s.skip(0) =~= s);
        0
    }
}

/// A text without the white space around it is what stands between: nothing but
/// white space is cut off at either end, and none is left there.
pub proof fn both_ends_are_trimmed(s: Seq<char>) -> (lo: int)
    ensures
        ({
            let r = text::trimmed(s);
            &&& 0 <= lo <= lo + r.len() <= s.len()
            &&& r == s.subrange(lo, lo + r.len())
            &&& r.len() > 0 ==> !text::is_space(r[0]) && !text::is_space(r.last())
            &&& forall|i: int|
                0 <= i < lo || lo + r.len() <= i < s.len() ==> text::is_space(#[trigger] s[i])
        }),
{
    ends_are_trimmed(s);
    let t = text::trimmed_end(s);
    let k = lemma_start_is_trimmed(t);
    let r = text::trimmed(s);
    assert(r =~= s.subrange(k, k + r.len()));
    assert forall|i: int| 0 <= i < k || k + r.len() <= i < s.len() implies text::is_space(
        #[trigger] s[i],
    ) by {
        if i < k {
            assert(t[i] == s[i]);
        }
    }
    if r.len() > 0 {
        assert(r[0] == t[k]);
        assert(r.last() == t.last());
    }
    k
}

proof fn lemma_blank_in_front(s: Seq<char>, c: char)
    requires
        text::is_space(c),
    ensures
        text::trimmed_end(seq![c] + s) == if text::trimmed_end(s).len() == 0 {
            Seq::<char>::empty()
        } else {
            seq![c] + text::trimmed_end(s)
        },
    decreases s.len(),
{
    let t = seq![c] + s;
    if s.len() == 0 {
        assert(t.drop_last() =~= Seq::<char>::empty());
        assert(t.last() == c);
        assert(text::trimmed_end(t.drop_last()) =~= Seq::<char>::empty());
    } else if text::is_space(s.last()) {
        assert(t.drop_last() =~= seq![c] + s.drop_last());
        assert(t.last() == s.last());
        lemma_blank_in_front(s.drop_last(), c);
    } else {
        assert(t.last() == s.last());
    }
}

/// White space at either end of a text makes no difference once it is trimmed.
pub proof fn blanks_at_the_ends_make_no_difference(s: Seq<char>, c: char)
    requires
        text::is_space(c),
    ensures
        text::trimmed(s.push(c)) == text::trimmed(s),
        text::trimmed(seq![c] + s) == text::trimmed(s),
{
    assert(s.push(c).drop_last() =~= s);
    lemma_blank_in_front(s, c);
    let e = text::trimmed_end(s);
    if e.len() > 0 {
        assert((seq![c] + e).drop_first() =~= e);
    } else {
        assert(e =~= Seq::<char>::empty());
    }
}

/// The path of an entry: its directory, one slash unless that ends with one,
/// and its name. The name at the end of it is that of the entry.
pub proof fn paths_of_entries(dir: Seq<char>, name: Seq<char>)
    requires
        name.len() > 0,
        name != seq!['.'],
        name != seq!['.', '.'],
        forall|i: int| 0 <= i < name.len() ==> #[trigger] name[i] != '/',
    ensures
        paths::joined(dir, name) == if dir.len() == 0 || dir.last() == '/' {
            dir + name
        } else {
            dir + seq!['/'] + name
        },
        paths::file_name(paths::joined(dir, name)) == Some(name),
        paths::depth(paths::joined(dir, name)) == paths::depth(dir) + 1,
        paths::is_hidden(name) <==> name[0] == '.',
{
    let p = paths::joined(dir, name);
    if dir.len() > 0 && dir.last() != '/' {
        assert(p =~= dir + seq!['/'] + name);
    }
    paths::lemma_piece_start(p);
    let s = paths::piece_start(p);
    let k = p.len() - name.len();
    assert(p.last() == name[name.len() - 1]);
    assert(s == k) by {
        if s > k {
            assert(p[s - 1] == name[s - 1 - k]);
        }
        if s < k {
            assert(p[k - 1] == '/');
        }
    }
    assert(p.skip(k) =~= name);
    paths::entry_of_directory(dir, name, seq![]);
    paths::parent_is_shallower(p);
    paths::tidying_twice_is_once(dir);
}

proof fn lemma_decimal_digits(n: int)
    requires
        n >= 0,
    ensures
        ({
            let t = decimal::decimal(n);
            &&& t.len() > 0
            &&& amounts::is_digits(t)
            &&& decimal::digits_value(amounts::digit_values(t)) == n
            &&& n >= 10 ==> t.len() > 1
            &&& n > 0 ==> t[0] != '0'
        }),
    decreases n,
{
    let t = decimal::decimal(n);
    let v = amounts::digit_values(t);
    if n < 10 {
        assert(v =~= seq![n as u8]);
        assert(v.drop_last() =~= Seq::<u8>::empty());
        assert(decimal::digits_value(v.drop_last()) == 0);
    } else {
        lemma_decimal_digits(n / 10);
        let less = decimal::decimal(n / 10);
        assert(v.drop_last() =~= amounts::digit_values(less));
        assert(t.last() == decimal::digit(n % 10));
        assert(v.last() == (n % 10) as u8);
        assert forall|i: int| 0 <= i < t.len() implies '0' <= #[trigger] t[i] <= '9' by {
            if i < less.len() {
                assert(t[i] == less[i]);
            }
        }
        assert(t[0] == less[0]);
    }
}

/// A number that is written out is read back as it was, with or without a plus
/// sign. It is written in digits, without a zero in front.
pub proof fn numbers_are_read_back(n: int)
    requires
        n >= 0,
    ensures
        numbers::number(decimal::decimal(n)) == Some(n),
        numbers::number(seq!['+'] + decimal::decimal(n)) == Some(n),
        decimal::decimal(n).len() > 0,
        forall|i: int|
            0 <= i < decimal::decimal(n).len() ==> '0' <= #[trigger] decimal::decimal(n)[i] <= '9',
        n > 0 ==> decimal::decimal(n)[0] != '0',
{
    lemma_decimal_digits(n);
    let t = decimal::decimal(n);
    assert('0' <= t[0] <= '9');
    assert((seq!['+'] + t).drop_first() =~= t);
}

/// One more digit makes a number ten times as large, and adds its value.
/// Anything else than a digit spoils it.
pub proof fn digits_count_for_tens(s: Seq<char>, c: char)
    requires
        numbers::number(s) is Some,
    ensures
        '0' <= c <= '9' ==> numbers::number(s.push(c)) == Some(
            10 * numbers::number(s)->0 + (c as int - '0' as int),
        ),
        !('0' <= c <= '9') ==> numbers::number(s.push(c)) is None,
{
    let body = numbers::without_plus(s);
    let more = numbers::without_plus(s.push(c));
    assert(more =~= body.push(c));
    assert(more.last() == c);
    assert(more[more.len() - 1] == c);
    assert(amounts::digit_values(more).drop_last() =~= amounts::digit_values(body));
    if '0' <= c <= '9' {
        assert forall|i: int| 0 <= i < more.len() implies '0' <= #[trigger] more[i] <= '9' by {
            if i < body.len() {
                assert(more[i] == body[i]);
            }
        }
        assert(amounts::digit_values(more).last() == (c as int - 48) as u8);
    }
}

/// A single digit is a number; no digits are none.
pub proof fn short_numbers(c: char)
    ensures
        '0' <= c <= '9' ==> numbers::number(seq![c]) == Some(c as int - '0' as int),
        !('0' <= c <= '9') ==> numbers::number(seq![c]) is None,
        numbers::number(seq![]) is None,
{
    let s = seq![c];
    if c == '+' {
        assert(s.drop_first() =~= Seq::<char>::empty());
    } else {
        assert(s[0] == c);
    }
    let v = amounts::digit_values(s);
    assert(v.drop_last() =~= Seq::<u8>::empty());
    assert(decimal::digits_value(v.drop_last()) == 0);
    if '0' <= c <= '9' {
        assert(v.last() == (c as int - 48) as u8);
    }
}

proof fn lemma_first_point(u: Seq<char>)
    requires
        forall|i: int| 0 <= i < u.len() ==> #[trigger] u[i] != '.',
    ensures
        amounts::first_point(u) == u.len(),
    decreases u.len(),
{
    if u.len() > 0 {
        assert(u[0] != '.');
        assert forall|i: int| 0 <= i < u.drop_first().len() implies #[trigger] u.drop_first()[i]
            != '.' by {
            assert(u.drop_first()[i] == u[i + 1]);
        }
        lemma_first_point(u.drop_first());
    }
}

/// A whole number of some unit comes to that many times the unit: 1 byte,
/// 1024 bytes, and so on, each unit 1024 times the one before. Any other text
/// is no unit.
pub proof fn whole_amounts(n: int, unit: Seq<char>)
    requires
        0 <= n,
    ensures
        unit == "B"@ && n < 0x20_0000_0000_0000 ==> amounts::amount_in(decimal::decimal(n), unit)
            == Amount::Bytes(n),
        unit == "KB"@ && n < 0x800_0000_0000 ==> amounts::amount_in(decimal::decimal(n), unit)
            == Amount::Bytes(n * 1024),
        unit == "MB"@ && n < 0x2_0000_0000 ==> amounts::amount_in(decimal::decimal(n), unit)
            == Amount::Bytes(n * 1024 * 1024),
        unit == "GB"@ && n < 0x80_0000 ==> amounts::amount_in(decimal::decimal(n), unit)
            == Amount::Bytes(n * 1024 * 1024 * 1024),
        unit == "TB"@ && n < 0x2000 ==> amounts::amount_in(decimal::decimal(n), unit)
            == Amount::Bytes(n * 1024 * 1024 * 1024 * 1024),
        unit != "B"@ && unit != "KB"@ && unit != "MB"@ && unit != "GB"@ && unit != "TB"@
            ==> amounts::amount_in(decimal::decimal(n), unit) == Amount::UnknownUnit(unit),
{
    let t = decimal::decimal(n);
    lemma_decimal_digits(n);
    assert('0' <= t[0] <= '9');
    assert forall|i: int| 0 <= i < t.len() implies #[trigger] t[i] != '.' by {
        assert('0' <= t[i] <= '9');
    }
    lemma_first_point(t);
    assert(amounts::unsigned(t) == t);
    assert(amounts::whole_part(t) =~= t);
    let none = Seq::<char>::empty();
    assert(amounts::fraction_part(t) =~= none);
    assert(amounts::digit_values(none) =~= Seq::<u8>::empty());
    let v = amounts::digit_values(t);
    assert(decimal::are_digits(v)) by {
        assert forall|i: int| 0 <= i < v.len() implies (#[trigger] v[i]) < 10 by {
            assert('0' <= t[i] <= '9');
        }
    }
    reveal_strlit("B");
    reveal_strlit("KB");
    reveal_strlit("MB");
    reveal_strlit("GB");
    reveal_strlit("TB");
    assert("KB"@[0] == 'K' && "MB"@[0] == 'M' && "GB"@[0] == 'G' && "TB"@[0] == 'T');
    assert("B"@.len() == 1 && "KB"@.len() == 2);
    lemma_powers();
    if unit == "B"@ && n < 0x20_0000_0000_0000 {
        decimal::small_whole_numbers_are_exact(v, 0);
    } else if unit == "KB"@ && n < 0x800_0000_0000 {
        decimal::small_whole_numbers_are_exact(v, 10);
    } else if unit == "MB"@ && n < 0x2_0000_0000 {
        decimal::small_whole_numbers_are_exact(v, 20);
    } else if unit == "GB"@ && n < 0x80_0000 {
        decimal::small_whole_numbers_are_exact(v, 30);
    } else if unit == "TB"@ && n < 0x2000 {
        decimal::small_whole_numbers_are_exact(v, 40);
    }
}

proof fn lemma_powers()
    ensures
        decimal::pow2(0) == 1,
        decimal::pow2(10) == 1024,
        decimal::pow2(20) == 1048576,
        decimal::pow2(30) == 1073741824,
        decimal::pow2(40) == 1099511627776,
{
    reveal_with_fuel(decimal::pow2, 11);
    assert(decimal::pow2(10) == 1024);
    assert(decimal::pow2(20) == 1048576);
    assert(decimal::pow2(30) == 1073741824);
    assert(decimal::pow2(40) == 1099511627776);
}

/// The unit of an amount starts at its first letter, and may be written in
/// either case; without a letter there is no unit.
pub proof fn amounts_are_a_number_and_a_unit(number: Seq<char>, unit: Seq<char>)
    requires
        text::all_ascii(number + unit),
        forall|i: int|
            0 <= i < number.len() ==> !('a' <= #[trigger] number[i] <= 'z') && !('A' <= number[i]
                <= 'Z'),
        unit.len() > 0 ==> 'a' <= unit[0] <= 'z' || 'A' <= unit[0] <= 'Z',
    ensures
        unit.len() == 0 ==> amounts::ascii_amount(number + unit) == Amount::MissingUnit,
        unit.len() > 0 ==> amounts::ascii_amount(number + unit) == amounts::amount_in(
            number,
            unit.map_values(|c: char| text::ascii_upper(c)),
        ),
{
    let s = number + unit;
    lemma_first_ascii_letter(number, unit);
    assert(s.take(number.len() as int) =~= number);
    assert(s.skip(number.len() as int) =~= unit);
}

proof fn lemma_first_ascii_letter(number: Seq<char>, unit: Seq<char>)
    requires
        forall|i: int|
            0 <= i < number.len() ==> !('a' <= #[trigger] number[i] <= 'z') && !('A' <= number[i]
                <= 'Z'),
        unit.len() > 0 ==> 'a' <= unit[0] <= 'z' || 'A' <= unit[0] <= 'Z',
    ensures
        amounts::first_ascii_letter(number + unit) == number.len(),
    decreases number.len(),
{
    let s = number + unit;
    if number.len() == 0 {
        assert(s =~= unit);
    } else {
        assert(s[0] == number[0]);
        let rest = number.drop_first();
        assert(s.drop_first() =~= rest + unit);
        assert forall|i: int| 0 <= i < rest.len() implies !('a' <= #[trigger] rest[i] <= 'z') && !(
        'A' <= rest[i] <= 'Z') by {
            assert(rest[i] == number[i + 1]);
        }
        lemma_first_ascii_letter(rest, unit);
    }
}

/// Letters of the two cases go together, and no other character is changed.
pub proof fn upper_case_letters(c: char)
    ensures
        'a' <= c <= 'z' ==> 'A' <= text::ascii_upper(c) <= 'Z' && text::ascii_upper(c) as int
            - 'A' as int == c as int - 'a' as int,
        !('a' <= c <= 'z') ==> text::ascii_upper(c) == c,
{
}

proof fn lemma_pow2_grows(k: nat)
    ensures
        decimal::pow2(k) >= 1,
        k >= 1 ==> decimal::pow2(k) >= 2,
    decreases k,
{
    if k > 0 {
        lemma_pow2_grows((k - 1) as nat);
    }
}

/// A plus sign makes no difference to an amount; a minus sign is refused before
/// every number but zero, whatever the unit.
pub proof fn signs_of_amounts(n: int, unit: Seq<char>)
    requires
        0 <= n,
    ensures
        amounts::amount_in(seq!['+'] + decimal::decimal(n), unit) == amounts::amount_in(
            decimal::decimal(n),
            unit,
        ),
        n > 0 ==> amounts::amount_in(seq!['-'] + decimal::decimal(n), unit) is Negative,
        n == 0 ==> amounts::amount_in(seq!['-'] + decimal::decimal(n), unit) == amounts::amount_in(
            decimal::decimal(n),
            unit,
        ),
{
    let t = decimal::decimal(n);
    lemma_decimal_digits(n);
    assert('0' <= t[0] <= '9');
    let (plus, minus) = (seq!['+'] + t, seq!['-'] + t);
    assert(plus.drop_first() =~= t);
    assert(minus.drop_first() =~= t);
    assert(plus[0] == '+' && minus[0] == '-');
    assert(amounts::unsigned(t) == t);
    assert forall|i: int| 0 <= i < t.len() implies #[trigger] t[i] != '.' by {
        assert('0' <= t[i] <= '9');
    }
    lemma_first_point(t);
    assert(amounts::whole_part(t) =~= t);
    let none = Seq::<char>::empty();
    assert(amounts::fraction_part(t) =~= none);
    assert(amounts::digit_values(none) =~= Seq::<u8>::empty());
    lemma_pow2_grows(1075);
    let no_digits = Seq::<u8>::empty();
    let v = amounts::digit_values(t);
    assert(decimal::digits_value(no_digits) == 0);
    assert(decimal::pow10(no_digits.len()) == 1);
    assert(decimal::decimal_value(v, no_digits) == n);
    assert(n > 0 ==> n * decimal::pow2(1075) >= 2) by (nonlinear_arith)
        requires
            decimal::pow2(1075) >= 2,
    ;
    if n == 0 {
        assert(0 * decimal::pow2(1075) == 0);
        assert(decimal::rounds_to_zero(v, no_digits));
    }
}

/// What is no number is refused as such: anything else than digits around a
/// point.
pub proof fn numbers_hold_digits(number: Seq<char>, unit: Seq<char>, i: int)
    requires
        0 < i < number.len(),
        !('0' <= number[i] <= '9'),
        number[i] != '.',
    ensures
        amounts::amount_in(number, unit) == Amount::BadNumber(number),
{
    let u = amounts::unsigned(number);
    let k = number.len() - u.len();
    assert(u[i - k] == number[i]);
    lemma_not_number(u, i - k);
}

proof fn lemma_point_bounds(u: Seq<char>)
    ensures
        0 <= amounts::first_point(u) <= u.len(),
        amounts::first_point(u) < u.len() ==> u[amounts::first_point(u)] == '.',
    decreases u.len(),
{
    if u.len() > 0 && u[0] != '.' {
        lemma_point_bounds(u.drop_first());
    }
}

proof fn lemma_not_number(u: Seq<char>, j: int)
    requires
        0 <= j < u.len(),
        !('0' <= u[j] <= '9'),
        u[j] != '.',
    ensures
        !amounts::is_number(u),
{
    lemma_point_bounds(u);
    let p = amounts::first_point(u);
    if j < p {
        assert(amounts::whole_part(u)[j] == u[j]);
    } else {
        assert(j > p);
        assert(amounts::fraction_part(u)[j - p - 1] == u[j]);
    }
}

} // verus!
