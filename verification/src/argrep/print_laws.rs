//! What is printed for the rows of a report.

use crate::argrep::config::SearchConfig;
use crate::argrep::display;
use crate::argrep::matcher;
use crate::argrep::rows::Row;
use crate::decimal;
use crate::paint;
use crate::paint::{PieceView, Style};
use crate::text;
use crate::text_laws;
use vstd::prelude::*;
use vstd::utf8::*;

verus! {

/// Where the last of the pieces starts in what is printed for them.
proof fn lemma_last_piece(out: Seq<char>, pieces: Seq<PieceView>) -> (k: int)
    requires
        paint::prints_all(out, pieces),
        pieces.len() > 0,
    ensures
        0 <= k <= out.len(),
        paint::prints(out.skip(k), pieces.last()),
        paint::prints_all(out.take(k), pieces.drop_last()),
        out == out.take(k) + out.skip(k),
{
    let k = choose|k: int|
        0 <= k <= out.len() && paint::prints(#[trigger] out.skip(k), pieces.last())
            && paint::prints_all(out.take(k), pieces.drop_last());
    assert(out =~= out.take(k) + out.skip(k));
    k
}

/// What is printed for a styled piece and a plain one.
proof fn lemma_pair(out: Seq<char>, a: PieceView, b: PieceView) -> (first: Seq<char>)
    requires
        paint::prints_all(out, seq![a, b]),
        b.style is None,
    ensures
        paint::prints(first, a),
        out == first + b.text,
{
    let pieces = seq![a, b];
    let k = lemma_last_piece(out, pieces);
    assert(pieces.drop_last() =~= seq![a]);
    let head = out.take(k);
    let j = lemma_last_piece(head, seq![a]);
    assert(seq![a].drop_last() =~= Seq::<PieceView>::empty());
    assert(head.take(j).len() == 0);
    assert(head.skip(j) =~= head);
    head
}

/// Two characters that part fields.
proof fn lemma_marks()
    ensures
        display::field_mark(true) == seq!['-'],
        display::field_mark(false) == seq![':'],
{
    reveal_strlit("-");
    reveal_strlit(":");
    assert("-"@ =~= seq!['-']);
    assert(":"@ =~= seq![':']);
}

/// A line of a file is printed behind the file's name, and under -n behind its
/// number, each with a colon behind it, or a dash for context. The name stands
/// there whether or not numbers are asked for. Lines of standard input come
/// without a name.
pub proof fn lines_are_printed_behind_name_and_number(
    out: Seq<char>,
    config: SearchConfig,
    row: Row,
    named: bool,
) -> (parts: (Seq<char>, Seq<char>, Seq<char>))
    requires
        display::is_printed_row(out, config, row, named),
        !row.separator,
        !config.files_with_matches,
        !config.files_without_match,
        !config.files_only,
        !config.count_per_file,
    ensures
        ({
            let (name, number, body) = parts;
            let mark = seq![
                if row.context {
                    '-'
                } else {
                    ':'
                },
            ];
            &&& out == (if named {
                name + mark
            } else {
                seq![]
            }) + (if config.line_number {
                number + mark
            } else {
                seq![]
            }) + body
            &&& named ==> paint::is_painted(name, row.path, Style::Magenta)
            &&& config.line_number ==> paint::is_painted(
                number,
                decimal::decimal(row.num),
                Style::Green,
            )
            &&& row.context ==> body == text::trimmed_end(row.text)
            &&& !row.context ==> exists|line: Seq<char>| #[trigger]
                paint::prints_all(
                    line,
                    display::highlighted(
                        row.text,
                        matcher::regex_spans(
                            matcher::regex_pattern(config.regex),
                            matcher::regex_folds_case(config.regex),
                            row.text,
                        ),
                    ),
                ) && body == text::trimmed_end(line)
        }),
{
    lemma_marks();
    let k = choose|k: int|
        0 <= k <= out.len() && paint::prints_all(
            #[trigger] out.take(k),
            display::row_head(config, row, named),
        ) && display::is_body(config, row, out.skip(k));
    let head = out.take(k);
    let body = out.skip(k);
    assert(out =~= head + body);
    let mark = paint::plain_piece(display::field_mark(row.context));
    let number = paint::styled_piece(decimal::decimal(row.num), Style::Green);
    let name = paint::styled_piece(row.path, Style::Magenta);
    let m = display::field_mark(row.context);
    let pieces = display::row_head(config, row, named);
    let empty = Seq::<char>::empty();
    if named && config.line_number {
        assert(pieces =~= seq![name, mark, number, mark]);
        let j = lemma_last_piece(head, pieces);
        assert(pieces.drop_last() =~= seq![name, mark, number]);
        let a = head.take(j);
        let i = lemma_last_piece(a, seq![name, mark, number]);
        assert(seq![name, mark, number].drop_last() =~= seq![name, mark]);
        let front = a.take(i);
        let num = a.skip(i);
        let first = lemma_pair(front, name, mark);
        assert(out =~= (first + m) + (num + m) + body);
        (first, num, body)
    } else if named {
        assert(pieces =~= seq![name, mark]);
        let first = lemma_pair(head, name, mark);
        assert(out =~= (first + m) + empty + body);
        (first, empty, body)
    } else if config.line_number {
        assert(pieces =~= seq![number, mark]);
        let num = lemma_pair(head, number, mark);
        assert(out =~= empty + (num + m) + body);
        (empty, num, body)
    } else {
        assert(pieces =~= Seq::<PieceView>::empty());
        assert(out =~= empty + empty + body);
        (empty, empty, body)
    }
}

/// What stands for a file as a whole is printed alone: two dashes between groups
/// of lines, the file's name under -l, -L and --files, and under -c its name, a
/// colon, a blank and the count.
pub proof fn other_rows_are_printed_alone(
    out: Seq<char>,
    config: SearchConfig,
    row: Row,
    named: bool,
) -> (parts: (Seq<char>, Seq<char>))
    requires
        display::is_printed_row(out, config, row, named),
    ensures
        row.separator ==> paint::is_painted(out, seq!['-', '-'], Style::Cyan),
        !row.separator && (config.files_with_matches || config.files_without_match
            || config.files_only) ==> paint::is_painted(out, row.path, Style::Magenta),
        !row.separator && config.count_per_file && !config.files_with_matches
            && !config.files_without_match && !config.files_only ==> {
            &&& out == parts.0 + seq![':', ' '] + parts.1
            &&& paint::is_painted(parts.0, row.path, Style::Magenta)
            &&& row.count matches Some(n) ==> paint::is_painted(
                parts.1,
                decimal::decimal(n),
                Style::Green,
            )
        },
{
    reveal_strlit("--");
    reveal_strlit(": ");
    assert("--"@ =~= seq!['-', '-']);
    assert(": "@ =~= seq![':', ' ']);
    let k = choose|k: int|
        0 <= k <= out.len() && paint::prints_all(
            #[trigger] out.take(k),
            display::row_head(config, row, named),
        ) && display::is_body(config, row, out.skip(k));
    let head = out.take(k);
    let empty = Seq::<char>::empty();
    let pieces = display::row_head(config, row, named);
    if row.separator || config.files_with_matches || config.files_without_match
        || config.files_only {
        assert(out.skip(k).len() == 0);
        assert(head =~= out);
        let j = lemma_last_piece(head, pieces);
        assert(pieces.drop_last() =~= Seq::<PieceView>::empty());
        assert(head.take(j).len() == 0);
        assert(head.skip(j) =~= head);
        (empty, empty)
    } else if config.count_per_file {
        assert(out.skip(k).len() == 0);
        assert(head =~= out);
        let j = lemma_last_piece(head, pieces);
        let name = paint::styled_piece(row.path, Style::Magenta);
        let colon = paint::plain_piece(": "@);
        assert(pieces.drop_last() =~= seq![name, colon]);
        let first = lemma_pair(head.take(j), name, colon);
        assert(out =~= first + seq![':', ' '] + head.skip(j));
        (first, head.skip(j))
    } else {
        (empty, empty)
    }
}

/// The texts of pieces, one after the other.
pub open spec fn texts_of(pieces: Seq<PieceView>) -> Seq<char>
    decreases pieces.len(),
{
    if pieces.len() == 0 {
        seq![]
    } else {
        texts_of(pieces.drop_last()) + pieces.last().text
    }
}

proof fn lemma_texts_pushed(pieces: Seq<PieceView>, p: PieceView)
    ensures
        texts_of(pieces.push(p)) == texts_of(pieces) + p.text,
{
    assert(pieces.push(p).drop_last() =~= pieces);
}

proof fn lemma_marked(line: Seq<char>, hits: Seq<(usize, usize)>, n: int)
    requires
        matcher::spans_fit(hits, line),
        0 <= n <= hits.len(),
    ensures
        ({
            let pieces = display::marked(line, hits, n);
            let end = if n == 0 {
                0
            } else {
                hits[n - 1].1 as int
            };
            &&& pieces.len() == 2 * n
            &&& texts_of(pieces) == text::byte_slice(line, 0, end)
            &&& is_char_boundary(encode_utf8(line), end)
            &&& 0 <= end <= encode_utf8(line).len()
            &&& forall|i: int|
                0 <= i < n ==> {
                    &&& (#[trigger] pieces[2 * i]).style is None
                    &&& pieces[2 * i + 1].style == Some(Style::RedBold)
                    &&& pieces[2 * i + 1].text == text::byte_slice(
                        line,
                        hits[i].0 as int,
                        hits[i].1 as int,
                    )
                }
        }),
    decreases n,
{
    let bytes = encode_utf8(line);
    encode_utf8_valid_utf8(line);
    is_char_boundary_start_end_of_seq(bytes);
    let pieces = display::marked(line, hits, n);
    if n == 0 {
        text_laws::slices_hold_the_bytes(line, 0, 0);
        assert(texts_of(pieces) =~= text::byte_slice(line, 0, 0));
    } else {
        lemma_marked(line, hits, n - 1);
        let before = display::marked(line, hits, n - 1);
        let (lo, hi) = (hits[n - 1].0 as int, hits[n - 1].1 as int);
        assert(is_char_boundary(bytes, hits[n - 1].0 as int));
        let from = display::hits_end(hits, n - 1);
        if n > 1 {
            assert(hits[n - 2].1 <= hits[n - 1].0);
        }
        let gap = paint::plain_piece(text::byte_slice(line, from, lo));
        let hit = paint::styled_piece(text::byte_slice(line, lo, hi), Style::RedBold);
        assert(pieces =~= before.push(gap).push(hit));
        lemma_texts_pushed(before, gap);
        lemma_texts_pushed(before.push(gap), hit);
        text_laws::slices_that_touch_join(line, 0, from, lo);
        text_laws::slices_that_touch_join(line, 0, lo, hi);
        assert forall|i: int| 0 <= i < n implies ({
            &&& (#[trigger] pieces[2 * i]).style is None
            &&& pieces[2 * i + 1].style == Some(Style::RedBold)
            &&& pieces[2 * i + 1].text == text::byte_slice(
                line,
                hits[i].0 as int,
                hits[i].1 as int,
            )
        }) by {
            if i < n - 1 {
                assert(pieces[2 * i] == before[2 * i]);
                assert(pieces[2 * i + 1] == before[2 * i + 1]);
            }
        }
    }
}

/// Setting off the matches of a line loses nothing of it, and sets off the
/// matches and nothing else: the pieces together are the line, every other one
/// is plain, and the i-th of those between is what the i-th match covers.
pub proof fn every_match_is_set_off(line: Seq<char>, hits: Seq<(usize, usize)>)
    requires
        matcher::spans_fit(hits, line),
    ensures
        ({
            let pieces = display::highlighted(line, hits);
            &&& pieces.len() == 2 * hits.len() + 1
            &&& texts_of(pieces) == line
            &&& pieces.last().style is None
            &&& forall|i: int|
                0 <= i < hits.len() ==> {
                    &&& (#[trigger] pieces[2 * i]).style is None
                    &&& pieces[2 * i + 1].style == Some(Style::RedBold)
                    &&& encode_utf8(pieces[2 * i + 1].text) == encode_utf8(line).subrange(
                        hits[i].0 as int,
                        hits[i].1 as int,
                    )
                }
        }),
{
    let n = hits.len() as int;
    let bytes = encode_utf8(line);
    encode_utf8_valid_utf8(line);
    is_char_boundary_start_end_of_seq(bytes);
    lemma_marked(line, hits, n);
    let before = display::marked(line, hits, n);
    let end = display::hits_end(hits, n);
    let rest = paint::plain_piece(text::byte_slice(line, end, bytes.len() as int));
    let pieces = display::highlighted(line, hits);
    assert(pieces =~= before.push(rest));
    lemma_texts_pushed(before, rest);
    text_laws::slices_that_touch_join(line, 0, end, bytes.len() as int);
    text_laws::slices_hold_the_bytes(line, 0, bytes.len() as int);
    assert forall|i: int| 0 <= i < hits.len() implies ({
        &&& (#[trigger] pieces[2 * i]).style is None
        &&& pieces[2 * i + 1].style == Some(Style::RedBold)
        &&& encode_utf8(pieces[2 * i + 1].text) == encode_utf8(line).subrange(
            hits[i].0 as int,
            hits[i].1 as int,
        )
    }) by {
        assert(pieces[2 * i] == before[2 * i]);
        assert(pieces[2 * i + 1] == before[2 * i + 1]);
        assert(is_char_boundary(bytes, hits[i].0 as int));
        text_laws::slices_hold_the_bytes(line, hits[i].0 as int, hits[i].1 as int);
    }
}

/// Pieces without a style are printed as they are, and a styled one with its
/// escape sequences around it: what is printed is the pieces in their order.
pub proof fn pieces_are_printed_in_order(out: Seq<char>, pieces: Seq<PieceView>)
    requires
        paint::prints_all(out, pieces),
        forall|i: int| 0 <= i < pieces.len() ==> (#[trigger] pieces[i]).style is None,
    ensures
        out == texts_of(pieces),
    decreases pieces.len(),
{
    if pieces.len() > 0 {
        let k = lemma_last_piece(out, pieces);
        let fewer = pieces.drop_last();
        assert forall|i: int| 0 <= i < fewer.len() implies (#[trigger] fewer[i]).style is None by {
            assert(fewer[i] == pieces[i]);
        }
        pieces_are_printed_in_order(out.take(k), fewer);
        assert(pieces[pieces.len() - 1].style is None);
    } else {
        assert(out =~= Seq::<char>::empty());
    }
}

} // verus!
