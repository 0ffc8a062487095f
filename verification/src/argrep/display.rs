//! How the rows of a report are printed.

use crate::argrep::config::{MatchResult, SearchConfig};
use crate::argrep::matcher;
use crate::argrep::print_laws;
use crate::argrep::rows::Row;
use crate::decimal;
use crate::paint;
use crate::paint::{Piece, PieceView, Style};
use crate::text;
use regex::Regex;
use vstd::prelude::*;
use vstd::string::*;
use vstd::utf8::*;

verus! {

/// Where the last of the first `n` matches ends.
pub open spec fn hits_end(hits: Seq<(usize, usize)>, n: int) -> int {
    if n <= 0 {
        0
    } else {
        hits[n - 1].1 as int
    }
}

/// A line up to the end of match `n`, with each match set off.
pub open spec fn marked(line: Seq<char>, hits: Seq<(usize, usize)>, n: int) -> Seq<PieceView>
    decreases n,
{
    if n <= 0 {
        seq![]
    } else {
        let (lo, hi) = (hits[n - 1].0 as int, hits[n - 1].1 as int);
        marked(line, hits, n - 1) + seq![
            paint::plain_piece(text::byte_slice(line, hits_end(hits, n - 1), lo)),
            paint::styled_piece(text::byte_slice(line, lo, hi), Style::RedBold),
        ]
    }
}

/// A line with each match set off in bold red.
pub open spec fn highlighted(line: Seq<char>, hits: Seq<(usize, usize)>) -> Seq<PieceView> {
    marked(line, hits, hits.len() as int).push(
        paint::plain_piece(
            text::byte_slice(
                line,
                hits_end(hits, hits.len() as int),
                encode_utf8(line).len() as int,
            ),
        ),
    )
}

/// Cuts a line up at its matches.
pub fn highlight_pieces(line: &str, hits: &Vec<(usize, usize)>) -> (r: Vec<Piece>)
    requires
        matcher::spans_fit(hits@, line@),
    ensures
        r.deep_view() == highlighted(line@, hits@),
{
    let ghost bytes = encode_utf8(line@);
    let mut out: Vec<Piece> = Vec::new();
    let mut end: usize = 0;
    let mut i: usize = 0;
    proof {
        encode_utf8_valid_utf8(line@);
        is_char_boundary_start_end_of_seq(bytes);
    }
    assert(out.deep_view() =~= marked(line@, hits@, 0));
    while i < hits.len()
        invariant
            0 <= i <= hits.len(),
            bytes == encode_utf8(line@),
            matcher::spans_fit(hits@, line@),
            end == hits_end(hits@, i as int),
            end <= bytes.len(),
            is_char_boundary(bytes, end as int),
            out.deep_view() == marked(line@, hits@, i as int),
        decreases hits.len() - i,
    {
        let (lo, hi) = hits[i];
        proof {
            assert(hits@[i as int] == (lo, hi));
            if i > 0 {
                assert(hits@[i - 1].1 <= hits@[i as int].0);
            }
        }
        let ghost before = out.deep_view();
        let gap = text::slice_bytes(line, end, lo);
        let hit = text::slice_bytes(line, lo, hi);
        out.push(paint::plain(gap.to_string()));
        out.push(paint::with_style(hit.to_string(), Style::RedBold));
        assert(out.deep_view() =~= before + seq![
            paint::plain_piece(gap@),
            paint::styled_piece(hit@, Style::RedBold),
        ]);
        end = hi;
        i += 1;
    }
    let ghost before = out.deep_view();
    let n: usize = line.as_bytes().len();
    proof {
        is_char_boundary_start_end_of_seq(bytes);
    }
    let rest = text::slice_bytes(line, end, n);
    out.push(paint::plain(rest.to_string()));
    assert(out.deep_view() =~= before.push(paint::plain_piece(rest@)));
    out
}

/// Sets off every match in a line in bold red.
pub fn highlight_matches(line: &str, regex: &Regex) -> (r: String)
    ensures
        paint::prints_all(r@, highlighted(line@, matcher::spans(*regex, line@))),
{
    let hits = matcher::find_spans(regex, line);
    paint::render(&highlight_pieces(line, &hits))
}

/// What parts the fields before a line: a dash for context, else a colon.
pub open spec fn field_mark(context: bool) -> Seq<char> {
    if context {
        "-"@
    } else {
        ":"@
    }
}

/// The row stands for a file as a whole, and is printed as its name.
pub open spec fn prints_name(config: SearchConfig) -> bool {
    config.files_with_matches || config.files_without_match || config.files_only
}

/// What is printed before the text of a line: the file's name, unless the
/// lines come from standard input, and the line's number under -n.
pub open spec fn line_head(row: Row, line_number: bool, named: bool) -> Seq<PieceView> {
    let mark = paint::plain_piece(field_mark(row.context));
    let number = paint::styled_piece(decimal::decimal(row.num), Style::Green);
    let name = paint::styled_piece(row.path, Style::Magenta);
    if named && line_number {
        seq![name, mark, number, mark]
    } else if named {
        seq![name, mark]
    } else if line_number {
        seq![number, mark]
    } else {
        seq![]
    }
}

/// What is printed for a row, but for the text of a line.
pub open spec fn row_head(config: SearchConfig, row: Row, named: bool) -> Seq<PieceView> {
    if row.separator {
        seq![paint::styled_piece("--"@, Style::Cyan)]
    } else if prints_name(config) {
        seq![paint::styled_piece(row.path, Style::Magenta)]
    } else if config.count_per_file {
        let n = match row.count {
            Some(n) => n,
            None => 0,
        };
        seq![
            paint::styled_piece(row.path, Style::Magenta),
            paint::plain_piece(": "@),
            paint::styled_piece(decimal::decimal(n), Style::Green),
        ]
    } else {
        line_head(row, config.line_number, named)
    }
}

/// The row is printed with the text of a line.
pub open spec fn has_text(config: SearchConfig, row: Row) -> bool {
    !row.separator && !prints_name(config) && !config.count_per_file
}

/// `body` is the text of the row's line as it is printed: without the white
/// space at its end, and with the matches set off unless it is context.
pub open spec fn is_body(config: SearchConfig, row: Row, body: Seq<char>) -> bool {
    if !has_text(config, row) {
        body.len() == 0
    } else if row.context {
        body == text::trimmed_end(row.text)
    } else {
        exists|line: Seq<char>| #[trigger]
            paint::prints_all(line, highlighted(row.text, config.hits(row.text))) && body
                == text::trimmed_end(line)
    }
}

/// `out` is the row as it is printed.
pub open spec fn is_printed_row(
    out: Seq<char>,
    config: SearchConfig,
    row: Row,
    named: bool,
) -> bool {
    exists|k: int|
        0 <= k <= out.len() && paint::prints_all(
            #[trigger] out.take(k),
            row_head(config, row, named),
        ) && is_body(config, row, out.skip(k))
}

/// The pieces before the text of a line.
fn head_pieces(config: &SearchConfig, result: &MatchResult, named: bool) -> (r: Vec<Piece>)
    ensures
        r.deep_view() == row_head(*config, result@, named),
{
    let mut out: Vec<Piece> = Vec::new();
    if result.is_separator {
        out.push(paint::with_style("--".to_string(), Style::Cyan));
    } else if config.files_with_matches || config.files_without_match || config.files_only {
        out.push(paint::with_style(result.file_path.clone(), Style::Magenta));
    } else if config.count_per_file {
        let n: usize = match result.count {
            Some(n) => n,
            None => 0,
        };
        out.push(paint::with_style(result.file_path.clone(), Style::Magenta));
        out.push(paint::plain(": ".to_string()));
        out.push(paint::with_style(decimal::to_decimal(n as u128), Style::Green));
    } else {
        let mark: &str = if result.is_context {
            "-"
        } else {
            ":"
        };
        if named {
            out.push(paint::with_style(result.file_path.clone(), Style::Magenta));
            out.push(paint::plain(mark.to_string()));
        }
        if config.line_number {
            out.push(
                paint::with_style(decimal::to_decimal(result.line_num as u128), Style::Green),
            );
            out.push(paint::plain(mark.to_string()));
        }
    }
    assert(out.deep_view() =~= row_head(*config, result@, named));
    out
}

fn print_row(result: &MatchResult, config: &SearchConfig, named: bool) -> (r: String)
    ensures
        is_printed_row(r@, *config, result@, named),
{
    let head = paint::render(&head_pieces(config, result, named));
    let names: bool = config.files_with_matches || config.files_without_match || config.files_only;
    let body: String = if result.is_separator || names || config.count_per_file {
        String::new()
    } else if result.is_context {
        text::trim_end(result.line_content.as_str())
    } else {
        let line = highlight_matches(result.line_content.as_str(), &config.regex);
        assert(paint::prints_all(line@, highlighted(result@.text, config.hits(result@.text))));
        text::trim_end(line.as_str())
    };
    assert(is_body(*config, result@, body@));
    let ghost k = head@.len() as int;
    let ghost (h, b) = (head@, body@);
    let out = head.concat(body.as_str());
    proof {
        assert(out@.take(k) =~= h);
        assert(out@.skip(k) =~= b);
    }
    out
}

/// Prints a row of a file's report: a separator, the file's name, its name and
/// count, or one of its lines behind its name.
pub fn print_result(result: &MatchResult, config: &SearchConfig) -> (r: String)
    ensures
        is_printed_row(r@, *config, result@, true),
        !result.is_separator && !config.files_with_matches && !config.files_without_match
            && !config.files_only && !config.count_per_file ==> exists|name: Seq<char>| #[trigger]
            paint::is_painted(name, result.file_path@, Style::Magenta) && name.push(
                if result.is_context {
                    '-'
                } else {
                    ':'
                },
            ).is_prefix_of(r@),
{
    let out = print_row(result, config, true);
    proof {
        if !result.is_separator && !config.files_with_matches && !config.files_without_match
            && !config.files_only && !config.count_per_file {
            let (name, _, _) = print_laws::lines_are_printed_behind_name_and_number(
                out@,
                *config,
                result@,
                true,
            );
            let mark = if result.is_context {
                '-'
            } else {
                ':'
            };
            assert(name.push(mark) =~= name + seq![mark]);
            assert(name.push(mark).is_prefix_of(out@));
        }
    }
    out
}

/// Prints a row of the report on standard input: as that of a file, but lines
/// come without a name.
pub fn print_stdin_line(result: &MatchResult, config: &SearchConfig) -> (r: String)
    ensures
        is_printed_row(r@, *config, result@, false),
        !result.is_separator && !config.files_with_matches && !config.files_without_match
            && !config.files_only && !config.count_per_file && !config.line_number
            && result.is_context ==> r@ == text::trimmed_end(result.line_content@),
{
    let out = print_row(result, config, false);
    proof {
        if !result.is_separator && !config.files_with_matches && !config.files_without_match
            && !config.files_only && !config.count_per_file && !config.line_number
            && result.is_context {
            let (_, _, body) = print_laws::lines_are_printed_behind_name_and_number(
                out@,
                *config,
                result@,
                false,
            );
            assert(out@ =~= body);
        }
    }
    out
}

} // verus!
