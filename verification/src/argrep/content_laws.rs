//! What is read of a file or of standard input, and how it falls into lines.

use crate::argrep::config::SearchConfig;
use crate::argrep::content;
use crate::argrep::matcher;
use crate::argrep::rows::{Line, LineRules};
use crate::text;
use vstd::prelude::*;
use vstd::utf8::*;

verus! {

/// Lines, one after the other.
pub open spec fn joined_lines(lines: Seq<Seq<u8>>) -> Seq<u8>
    decreases lines.len(),
{
    if lines.len() == 0 {
        seq![]
    } else {
        lines[0] + joined_lines(lines.skip(1))
    }
}

proof fn lemma_line_shape(content: Seq<u8>)
    requires
        content.len() > 0,
    ensures
        ({
            let k = content::line_end(content);
            &&& 0 < k <= content.len()
            &&& k < content.len() ==> content[k - 1] == 10
            &&& forall|i: int| 0 <= i < k - 1 ==> #[trigger] content[i] != 10
        }),
    decreases content.len(),
{
    content::lemma_line_end(content);
    if content[0] != 10 {
        let rest = content.drop_first();
        if rest.len() > 0 {
            lemma_line_shape(rest);
            let k = content::line_end(content);
            assert(content[k - 1] == rest[k - 2]);
            assert forall|i: int| 0 <= i < k - 1 implies #[trigger] content[i] != 10 by {
                if i > 0 {
                    assert(content[i] == rest[i - 1]);
                }
            }
        } else {
            assert(content::line_end(rest) == 0);
        }
    }
}

/// A file falls into lines at its line feeds and nowhere else: the lines
/// together are the file, none is empty, and each ends with the one line feed
/// that it holds, but for the last one, which may hold none.
pub proof fn files_fall_into_lines(content: Seq<u8>)
    ensures
        ({
            let lines = content::raw_lines(content);
            &&& joined_lines(lines) == content
            &&& forall|i: int|
                0 <= i < lines.len() ==> {
                    &&& (#[trigger] lines[i]).len() > 0
                    &&& i < lines.len() - 1 ==> lines[i].last() == 10
                    &&& forall|j: int| 0 <= j < lines[i].len() - 1 ==> lines[i][j] != 10
                }
        }),
    decreases content.len(),
{
    let lines = content::raw_lines(content);
    if content.len() > 0 {
        let k = content::line_end(content);
        lemma_line_shape(content);
        let rest = content.skip(k);
        files_fall_into_lines(rest);
        let more = content::raw_lines(rest);
        assert(lines.skip(1) =~= more);
        assert(lines[0] == content.take(k));
        assert(content.take(k) + rest =~= content);
        assert forall|i: int| 0 <= i < lines.len() implies ({
            &&& (#[trigger] lines[i]).len() > 0
            &&& i < lines.len() - 1 ==> lines[i].last() == 10
            &&& forall|j: int| 0 <= j < lines[i].len() - 1 ==> lines[i][j] != 10
        }) by {
            if i > 0 {
                assert(lines[i] == more[i - 1]);
            } else {
                assert forall|j: int| 0 <= j < k - 1 implies content.take(k)[j] != 10 by {
                    assert(content[j] != 10);
                }
                if lines.len() > 1 {
                    assert(rest.len() > 0);
                }
            }
        }
    } else {
        assert(joined_lines(lines) =~= content);
    }
}

/// What is left of a file that could not be read any further: everything up to
/// and with its last line feed.
pub proof fn incomplete_lines_are_lost(content: Seq<u8>)
    ensures
        ({
            let part = content::readable(content, true);
            &&& part.is_prefix_of(content)
            &&& part.len() == 0 || part.last() == 10
            &&& forall|i: int| part.len() <= i < content.len() ==> #[trigger] content[i] != 10
        }),
        content::readable(content, false) == content,
    decreases content.len(),
{
    if content.len() > 0 && content.last() != 10 {
        let fewer = content.drop_last();
        incomplete_lines_are_lost(fewer);
        let part = content::readable(content, true);
        assert forall|i: int| part.len() <= i < content.len() implies #[trigger] content[i] != 10 by {
            if i < fewer.len() {
                assert(fewer[i] == content[i]);
            }
        }
    }
}

/// A file is taken for a binary one exactly if one of its first 1024 bytes is
/// zero.
pub proof fn binary_files(content: Seq<u8>)
    ensures
        content::holds_zero(content::sniffed(content)) <==> exists|i: int|
            0 <= i < content.len() && i < 1024 && #[trigger] content[i] == 0,
        content::sniffed(content).len() == if content.len() < 1024 {
            content.len() as int
        } else {
            1024
        },
{
    let start = content::sniffed(content);
    if content::holds_zero(start) {
        let i = choose|i: int| 0 <= i < start.len() && #[trigger] start[i] == 0;
        assert(content[i] == 0);
    }
    if exists|i: int| 0 <= i < content.len() && i < 1024 && #[trigger] content[i] == 0 {
        let i = choose|i: int| 0 <= i < content.len() && i < 1024 && #[trigger] content[i] == 0;
        assert(start[i] == 0);
    }
}

/// Nothing is found in a binary file, nor in one of which nothing could be
/// read. In any other file, every line is searched that was read whole: the
/// report is that of those lines, in their order, each with the matches in its
/// own text. `i` is any of them.
pub proof fn files_are_searched_line_by_line(
    config: SearchConfig,
    path: Seq<char>,
    content: Seq<u8>,
    failed: bool,
    i: int,
)
    ensures
        ({
            let found = content::found_in(config, path, content, failed);
            let raws = content::raw_lines(content::readable(content, failed));
            let h = content::search_lines(config, raws);
            let rules = config.spec_rules();
            &&& content::holds_zero(content::sniffed(content)) || (failed && content.len() == 0)
                ==> found.rows.len() == 0 && found.matched_lines == 0
            &&& failed && content.len() == 0 ==> found.io_error
            &&& !content::holds_zero(content::sniffed(content)) && !(failed && content.len() == 0)
                ==> {
                &&& found.rows == rules.report(path, h, found.io_error)
                &&& found.matched_lines == rules.count(h)
                &&& !failed ==> !found.io_error
                &&& failed && !rules.finished(h) ==> found.io_error
            }
            &&& h.len() == raws.len()
            &&& 0 <= i < raws.len() ==> {
                let line = text::without_terminator(text::lossy_text(raws[i]));
                &&& h[i].text == line
                &&& h[i].hits == matcher::regex_spans(
                    matcher::regex_pattern(config.regex),
                    matcher::regex_folds_case(config.regex),
                    line,
                )
            }
        }),
{
}

proof fn lemma_never_finished(rules: LineRules, h: Seq<Line>, k: int)
    requires
        rules.mode is Lines || rules.mode is Pieces || rules.mode is Count,
        rules.max_count is None,
        0 <= k <= h.len(),
    ensures
        content::lines_needed(rules, h, k) == h.len(),
    decreases h.len() - k,
{
    if k < h.len() {
        lemma_never_finished(rules, h, k + 1);
    }
}

proof fn lemma_bytes(lines: Seq<Seq<u8>>, k: int)
    requires
        0 <= k <= lines.len(),
    ensures
        content::bytes_of(lines, k) + joined_lines(lines.skip(k)).len() == joined_lines(lines).len(),
    decreases k,
{
    if k == 0 {
        assert(lines.skip(0) =~= lines);
    } else {
        lemma_bytes(lines, k - 1);
        let rest = lines.skip(k - 1);
        assert(rest[0] == lines[k - 1]);
        assert(rest.skip(1) =~= lines.skip(k));
    }
}

/// Without a limit, and unless one line settles what is reported, a file is
/// read to its end: every byte of it counts as read, and its start twice.
pub proof fn files_are_read_to_their_end(
    config: SearchConfig,
    path: Seq<char>,
    content: Seq<u8>,
)
    requires
        !config.quiet,
        !config.files_with_matches,
        !config.files_without_match,
        config.max_count is None,
        !content::holds_zero(content::sniffed(content)),
    ensures
        content::found_in(config, path, content, false).bytes_read == content.len() + if content.len()
            < 1024 {
            content.len() as int
        } else {
            1024
        },
{
    let rules = config.spec_rules();
    let raws = content::raw_lines(content);
    let h = content::search_lines(config, raws);
    lemma_never_finished(rules, h, 0);
    lemma_bytes(raws, raws.len() as int);
    files_fall_into_lines(content);
    assert(raws.skip(raws.len() as int) =~= Seq::<Seq<u8>>::empty());
}

/// Standard input is read up to the first line that is not valid UTF-8, and
/// every line before it is read.
pub proof fn stdin_is_read_up_to_invalid_text(raws: Seq<Seq<u8>>)
    ensures
        ({
            let texts = content::text_lines(raws);
            &&& texts.is_prefix_of(raws)
            &&& forall|i: int| 0 <= i < texts.len() ==> valid_utf8(#[trigger] texts[i])
            &&& texts.len() < raws.len() ==> !valid_utf8(raws[texts.len() as int])
        }),
    decreases raws.len(),
{
    if raws.len() > 0 && valid_utf8(raws[0]) {
        let rest = raws.skip(1);
        stdin_is_read_up_to_invalid_text(rest);
        let texts = content::text_lines(raws);
        let more = content::text_lines(rest);
        assert(texts =~= seq![raws[0]] + more);
        assert forall|i: int| 0 <= i < texts.len() implies valid_utf8(#[trigger] texts[i]) by {
            if i > 0 {
                assert(texts[i] == more[i - 1]);
            }
        }
        assert(texts.is_prefix_of(raws)) by {
            assert forall|i: int| 0 <= i < texts.len() implies texts[i] == raws[i] by {
                if i > 0 {
                    assert(texts[i] == more[i - 1]);
                    assert(more[i - 1] == rest[i - 1]);
                }
            }
            assert(texts =~= raws.take(texts.len() as int));
        }
    }
}

/// A line of standard input counts for its length without the terminator, and
/// one.
pub proof fn lines_of_stdin_cost_their_length_and_one(s: Seq<u8>)
    requires
        s.len() == 0 || (s.last() != 10 && s.last() != 13),
    ensures
        content::stdin_cost(s) == s.len() + 1,
        content::stdin_cost(s.push(10)) == s.len() + 1,
        content::stdin_cost(s.push(13).push(10)) == s.len() + 1,
{
}

} // verus!
