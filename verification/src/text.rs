//! Text helpers: strings as sequences of characters.

use vstd::prelude::*;
use vstd::string::*;
use vstd::utf8::*;

verus! {

/// `String::push` appends one character.
pub assume_specification[ String::push ](s: &mut String, ch: char)
    ensures
        final(s)@ == old(s)@.push(ch),
;

/// The characters of `s`, one by one.
pub fn to_chars(s: &str) -> (r: Vec<char>)
    ensures
        r@ == s@,
{
    let mut out: Vec<char> = Vec::new();
    for c in it: s.chars()
        invariant
            out@ == it.seq().take(it.index() as int),
            it.seq() == s@,
    {
        out.push(c);
    }
    out
}

/// The part of `hay` between two offsets counted in bytes of its UTF-8 form.
pub open spec fn byte_slice(hay: Seq<char>, lo: int, hi: int) -> Seq<char> {
    decode_utf8(encode_utf8(hay).subrange(lo, hi))
}

/// A boundary stays one when an earlier part, itself ending at a boundary, is
/// cut away.
proof fn lemma_boundary_after_split(bytes: Seq<u8>, lo: int, hi: int)
    requires
        valid_utf8(bytes),
        0 <= lo <= hi <= bytes.len(),
        is_char_boundary(bytes, lo),
        is_char_boundary(bytes, hi),
    ensures
        is_char_boundary(bytes.subrange(lo, bytes.len() as int), hi - lo),
    decreases bytes.len(),
{
    let tail = bytes.subrange(lo, bytes.len() as int);
    if lo == 0 {
        assert(tail =~= bytes);
    } else {
        let rest = pop_first_scalar(bytes);
        let width = length_of_first_scalar(bytes);
        assert(is_char_boundary(rest, lo - width) && is_char_boundary(rest, hi - width));
        assert(0 <= lo - width && hi - width <= rest.len()) by {
            reveal_with_fuel(is_char_boundary, 2);
        }
        lemma_boundary_after_split(rest, lo - width, hi - width);
        assert(rest.subrange(lo - width, rest.len() as int) =~= tail);
    }
}

/// Cuts `hay` between two byte offsets.
pub fn slice_bytes(hay: &str, lo: usize, hi: usize) -> (r: &str)
    requires
        lo <= hi <= encode_utf8(hay@).len(),
        is_char_boundary(encode_utf8(hay@), lo as int),
        is_char_boundary(encode_utf8(hay@), hi as int),
    ensures
        r@ == byte_slice(hay@, lo as int, hi as int),
{
    proof {
        encode_utf8_valid_utf8(hay@);
        lemma_boundary_after_split(encode_utf8(hay@), lo as int, hi as int);
    }
    let (_, tail) = hay.split_at(lo);
    let (mid, _) = tail.split_at(hi - lo);
    proof {
        let bytes = encode_utf8(hay@);
        assert(encode_utf8(mid@) =~= bytes.subrange(lo as int, hi as int));
        encode_utf8_decode_utf8(mid@);
    }
    mid
}

/// The characters of `chars` from `lo` up to `hi`.
pub fn from_chars(chars: &Vec<char>, lo: usize, hi: usize) -> (r: String)
    requires
        lo <= hi <= chars.len(),
    ensures
        r@ == chars@.subrange(lo as int, hi as int),
{
    let mut out = String::new();
    let mut i: usize = lo;
    while i < hi
        invariant
            lo <= i <= hi <= chars.len(),
            out@ == chars@.subrange(lo as int, i as int),
        decreases hi - i,
    {
        out.push(chars[i]);
        assert(out@ =~= chars@.subrange(lo as int, i + 1));
        i += 1;
    }
    out
}

/// The text that `String::from_utf8_lossy` reads in bytes.
pub uninterp spec fn lossy_text(bytes: Seq<u8>) -> Seq<char>;

/// Calls `String::from_utf8_lossy`. Valid UTF-8 is decoded as it stands; what
/// replaces an invalid sequence is left to the library.
#[verifier::external_body]
pub(crate) fn decode_lossy(bytes: &[u8]) -> (r: String)
    ensures
        r@ == lossy_text(bytes@),
        valid_utf8(bytes@) ==> r@ == decode_utf8(bytes@),
{
    String::from_utf8_lossy(bytes).into_owned()
}

/// Calls `std::str::from_utf8`, which succeeds exactly on valid UTF-8.
#[verifier::external_body]
pub(crate) fn is_utf8(bytes: &[u8]) -> (b: bool)
    ensures
        b == valid_utf8(bytes@),
{
    std::str::from_utf8(bytes).is_ok()
}

/// A line without its terminator: a line feed, and a carriage return before
/// it.
pub open spec fn without_terminator(s: Seq<char>) -> Seq<char> {
    if s.len() == 0 || s.last() != '\n' {
        s
    } else {
        let body = s.drop_last();
        if body.len() > 0 && body.last() == '\r' {
            body.drop_last()
        } else {
            body
        }
    }
}

/// Cuts off the terminator of a line.
pub fn strip_terminator(s: &str) -> (r: String)
    ensures
        r@ == without_terminator(s@),
{
    let chars = to_chars(s);
    let mut end: usize = chars.len();
    if end > 0 && chars[end - 1] == '\n' {
        end = end - 1;
        if end > 0 && chars[end - 1] == '\r' {
            end = end - 1;
        }
    }
    let r = from_chars(&chars, 0, end);
    assert(r@ =~= without_terminator(s@));
    r
}

/// The characters that count as white space.
pub open spec fn is_space(c: char) -> bool {
    let n = c as int;
    ||| 0x9 <= n <= 0xd
    ||| n == 0x20
    ||| n == 0x85
    ||| n == 0xa0
    ||| n == 0x1680
    ||| 0x2000 <= n <= 0x200a
    ||| n == 0x2028
    ||| n == 0x2029
    ||| n == 0x202f
    ||| n == 0x205f
    ||| n == 0x3000
}

/// Whether a character counts as white space.
pub fn space_char(c: char) -> (b: bool)
    ensures
        b == is_space(c),
{
    let n: u32 = c as u32;
    (0x9 <= n && n <= 0xd) || n == 0x20 || n == 0x85 || n == 0xa0 || n == 0x1680 || (0x2000 <= n && n
        <= 0x200a) || n == 0x2028 || n == 0x2029 || n == 0x202f || n == 0x205f || n == 0x3000
}

/// A text without the white space at its end.
pub open spec fn trimmed_end(s: Seq<char>) -> Seq<char>
    decreases s.len(),
{
    if s.len() > 0 && is_space(s.last()) {
        trimmed_end(s.drop_last())
    } else {
        s
    }
}

/// A text without the white space at its start.
pub open spec fn trimmed_start(s: Seq<char>) -> Seq<char>
    decreases s.len(),
{
    if s.len() > 0 && is_space(s[0]) {
        trimmed_start(s.drop_first())
    } else {
        s
    }
}

/// A text without the white space at either end.
pub open spec fn trimmed(s: Seq<char>) -> Seq<char> {
    trimmed_start(trimmed_end(s))
}

fn find_end(chars: &Vec<char>) -> (n: usize)
    ensures
        n <= chars.len(),
        trimmed_end(chars@) == chars@.take(n as int),
{
    let mut n: usize = chars.len();
    assert(chars@.take(n as int) =~= chars@);
    while n > 0 && space_char(chars[n - 1])
        invariant
            n <= chars.len(),
            trimmed_end(chars@) == trimmed_end(chars@.take(n as int)),
        decreases n,
    {
        proof {
            let p = chars@.take(n as int);
            assert(p.last() == chars@[n - 1]);
            assert(p.drop_last() =~= chars@.take(n - 1));
        }
        n -= 1;
    }
    proof {
        if n > 0 {
            assert(chars@.take(n as int).last() == chars@[n - 1]);
        }
    }
    n
}

/// Cuts off the white space at the end of a text.
pub fn trim_end(s: &str) -> (r: String)
    ensures
        r@ == trimmed_end(s@),
{
    let chars = to_chars(s);
    let n: usize = find_end(&chars);
    let r = from_chars(&chars, 0, n);
    assert(r@ =~= chars@.take(n as int));
    r
}

/// Cuts off the white space at both ends of a text.
pub fn trim(s: &str) -> (r: String)
    ensures
        r@ == trimmed(s@),
{
    let chars = to_chars(s);
    let n: usize = find_end(&chars);
    let ghost kept = chars@.take(n as int);
    let mut i: usize = 0;
    assert(kept.skip(0) =~= kept);
    while i < n && space_char(chars[i])
        invariant
            0 <= i <= n <= chars.len(),
            kept == chars@.take(n as int),
            trimmed_start(kept) == trimmed_start(kept.skip(i as int)),
        decreases n - i,
    {
        proof {
            let rest = kept.skip(i as int);
            assert(rest[0] == chars@[i as int]);
            assert(rest.drop_first() =~= kept.skip(i + 1));
        }
        i += 1;
    }
    proof {
        if i < n {
            assert(kept.skip(i as int)[0] == chars@[i as int]);
        }
    }
    let r = from_chars(&chars, i, n);
    assert(r@ =~= kept.skip(i as int));
    r
}

/// Whether a character is a letter in the sense of Unicode.
pub uninterp spec fn alphabetic(c: char) -> bool;

/// `char::is_alphabetic`. Among the ASCII characters, the letters are.
pub assume_specification[ char::is_alphabetic ](c: char) -> (b: bool)
    ensures
        b == alphabetic(c),
        (c as int) < 128 ==> b == ('a' <= c <= 'z' || 'A' <= c <= 'Z'),
;

/// A text in upper case.
pub uninterp spec fn upper(s: Seq<char>) -> Seq<char>;

/// Every character is an ASCII one.
pub open spec fn all_ascii(s: Seq<char>) -> bool {
    forall|i: int| 0 <= i < s.len() ==> 128 > (#[trigger] s[i] as int)
}

/// An ASCII character in upper case.
pub open spec fn ascii_upper(c: char) -> char {
    if 'a' <= c <= 'z' {
        (c as int - 32) as char
    } else {
        c
    }
}

/// `str::to_uppercase`. ASCII text is changed letter by letter.
pub assume_specification[ str::to_uppercase ](s: &str) -> (r: String)
    ensures
        r@ == upper(s@),
        all_ascii(s@) ==> r@ == s@.map_values(|c: char| ascii_upper(c)),
;

} // verus!
