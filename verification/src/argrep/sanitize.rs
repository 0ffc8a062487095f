//! Making text safe to print on a terminal.

use std::borrow::Cow;
use vstd::prelude::*;
use vstd::string::*;

verus! {

/// The characters that are never printed as they are: the C0 controls but for
/// the tab, and DEL.
pub open spec fn is_control(c: char) -> bool {
    (c as int <= 0x1f && c != '\t') || c as int == 0x7f
}

/// The lower case hexadecimal digit for a value below sixteen.
pub open spec fn hex_digit(d: int) -> char {
    if d < 10 {
        ('0' as int + d) as char
    } else {
        ('a' as int + d - 10) as char
    }
}

/// What is printed for one character: itself, or `\xHH` for a control.
pub open spec fn visible(c: char) -> Seq<char> {
    if is_control(c) {
        seq!['\\', 'x', hex_digit(c as int / 16), hex_digit(c as int % 16)]
    } else {
        seq![c]
    }
}

/// What is printed for a text: what is printed for its characters in turn.
pub open spec fn sanitized(s: Seq<char>) -> Seq<char>
    decreases s.len(),
{
    if s.len() == 0 {
        seq![]
    } else {
        sanitized(s.drop_last()) + visible(s.last())
    }
}

/// No character of the text is a control.
pub open spec fn is_printable(s: Seq<char>) -> bool {
    forall|i: int| 0 <= i < s.len() ==> !is_control(#[trigger] s[i])
}

/// A printable text is printed as it is.
pub proof fn printable_is_unchanged(s: Seq<char>)
    requires
        is_printable(s),
    ensures
        sanitized(s) == s,
    decreases s.len(),
{
    if s.len() > 0 {
        assert forall|i: int| 0 <= i < s.drop_last().len() implies !is_control(
            #[trigger] s.drop_last()[i],
        ) by {
            assert(s.drop_last()[i] == s[i]);
        }
        printable_is_unchanged(s.drop_last());
        assert(!is_control(s[s.len() - 1]));
        assert(s.drop_last() + seq![s.last()] =~= s);
    } else {
        assert(sanitized(s) =~= s);
    }
}

proof fn visible_is_printable(c: char)
    ensures
        is_printable(visible(c)),
{
    assert(0 <= c as int);
}

/// Whatever a line holds, what is printed for it holds no control character.
pub proof fn sanitized_is_printable(s: Seq<char>)
    ensures
        is_printable(sanitized(s)),
    decreases s.len(),
{
    if s.len() > 0 {
        sanitized_is_printable(s.drop_last());
        let head = sanitized(s.drop_last());
        let tail = visible(s.last());
        assert forall|i: int| 0 <= i < sanitized(s).len() implies !is_control(
            #[trigger] sanitized(s)[i],
        ) by {
            if i < head.len() {
                assert(sanitized(s)[i] == head[i]);
            } else {
                assert(sanitized(s)[i] == tail[i - head.len()]);
                visible_is_printable(s.last());
            }
        }
    }
}

/// Sanitizing what has been sanitized changes nothing more.
pub proof fn sanitizing_twice_is_once(s: Seq<char>)
    ensures
        sanitized(sanitized(s)) == sanitized(s),
{
    sanitized_is_printable(s);
    printable_is_unchanged(sanitized(s));
}

/// Texts are made printable character by character, each by itself.
pub proof fn texts_are_sanitized_in_parts(a: Seq<char>, b: Seq<char>)
    ensures
        sanitized(a + b) == sanitized(a) + sanitized(b),
    decreases b.len(),
{
    if b.len() == 0 {
        assert(a + b =~= a);
        assert(sanitized(a) + sanitized(b) =~= sanitized(a));
    } else {
        texts_are_sanitized_in_parts(a, b.drop_last());
        assert((a + b).drop_last() =~= a + b.drop_last());
        assert((a + b).last() == b.last());
        assert(sanitized(a + b) =~= sanitized(a) + sanitized(b));
    }
}

/// What a hexadecimal digit is worth.
pub open spec fn hex_value(c: char) -> int {
    if '0' <= c <= '9' {
        c as int - '0' as int
    } else {
        c as int - 'a' as int + 10
    }
}

/// A character is printed as it is, but for the 33 controls of ASCII without
/// the tab: each of those is printed as a backslash, an `x` and its two
/// hexadecimal digits.
pub proof fn controls_are_written_out(c: char)
    ensures
        ({
            let out = sanitized(seq![c]);
            if (c as int) < 32 && c != '\t' || c as int == 127 {
                &&& out.len() == 4
                &&& out[0] == '\\' && out[1] == 'x'
                &&& '0' <= out[2] <= '7'
                &&& '0' <= out[3] <= '9' || 'a' <= out[3] <= 'f'
                &&& 16 * hex_value(out[2]) + hex_value(out[3]) == c as int
            } else {
                out == seq![c]
            }
        }),
{
    let s = seq![c];
    assert(s.drop_last() =~= Seq::<char>::empty());
    assert(sanitized(s.drop_last()) =~= Seq::<char>::empty());
    assert(sanitized(s) =~= visible(c));
    assert(0 <= c as int);
}

/// Nothing that is printed moves the cursor or starts an escape sequence: every
/// character is a tab or no control of ASCII.
pub proof fn nothing_printed_is_a_control(s: Seq<char>, i: int)
    requires
        0 <= i < sanitized(s).len(),
    ensures
        sanitized(s)[i] == '\t' || (sanitized(s)[i] as int >= 32 && sanitized(s)[i] as int != 127),
{
    sanitized_is_printable(s);
    assert(!is_control(sanitized(s)[i]));
}

fn is_control_char(c: char) -> (b: bool)
    ensures
        b == is_control(c),
{
    let code: u32 = c as u32;
    (code <= 0x1f && c != '\t') || code == 0x7f
}

fn hex_char(d: u32) -> (c: char)
    requires
        d < 16,
    ensures
        c == hex_digit(d as int),
{
    if d < 10 {
        (48u8 + d as u8) as char
    } else {
        (87u8 + d as u8) as char
    }
}

fn push_visible(out: &mut String, c: char)
    ensures
        final(out)@ == old(out)@ + visible(c),
{
    if is_control_char(c) {
        let code: u32 = c as u32;
        out.push('\\');
        out.push('x');
        out.push(hex_char(code / 16));
        out.push(hex_char(code % 16));
    } else {
        out.push(c);
    }
    assert(out@ =~= old(out)@ + visible(c));
}

/// Replaces the control characters of a text by visible `\xHH` escapes, so
/// that printing a line can never ring the bell, move the cursor or start an
/// escape sequence. The tab is left alone. A text without any control
/// character is handed back as it came, without a copy.
pub fn sanitize_for_display(s: &str) -> (r: Cow<'_, str>)
    ensures
        r@ == sanitized(s@),
        r is Borrowed <==> is_printable(s@),
{
    let mut clean: bool = true;
    for c in it: s.chars()
        invariant
            it.seq() == s@,
            clean <==> forall|i: int| 0 <= i < it.index() ==> !is_control(#[trigger] s@[i]),
    {
        if is_control_char(c) {
            assert(is_control(s@[it.index() as int]));
            clean = false;
        }
    }
    if clean {
        proof {
            printable_is_unchanged(s@);
        }
        return Cow::Borrowed(s);
    }
    let mut out = String::new();
    for c in it: s.chars()
        invariant
            it.seq() == s@,
            out@ == sanitized(s@.take(it.index() as int)),
    {
        proof {
            let k = it.index() as int;
            assert(s@.take(k + 1).drop_last() =~= s@.take(k));
            assert(s@.take(k + 1).last() == c);
        }
        push_visible(&mut out, c);
    }
    assert(s@.take(s@.len() as int) =~= s@);
    Cow::Owned(out)
}

/// `sanitize_for_display` as an owned text.
pub(crate) fn clean_text(s: &str) -> (r: String)
    ensures
        r@ == sanitized(s@),
{
    match sanitize_for_display(s) {
        Cow::Borrowed(b) => b.to_string(),
        Cow::Owned(o) => o,
    }
}

} // verus!
