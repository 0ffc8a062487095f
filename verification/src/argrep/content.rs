//! Searching what a file or standard input holds.

use crate::argrep::config::{MatchResult, SearchConfig};
use crate::argrep::display;
use crate::argrep::file_search;
use crate::argrep::file_search::FileSearch;
use crate::argrep::row_laws;
use crate::argrep::rows::{Line, LineRules, Row};
use crate::text;
use vstd::prelude::*;
use vstd::utf8::*;

verus! {

/// How many bytes the first line of `content` takes, its line feed counted in.
pub open spec fn line_end(content: Seq<u8>) -> int
    decreases content.len(),
{
    if content.len() == 0 {
        0
    } else if content[0] == 10 {
        1
    } else {
        1 + line_end(content.drop_first())
    }
}

/// A line takes at least one byte, and no more than there are.
pub proof fn lemma_line_end(content: Seq<u8>)
    ensures
        0 <= line_end(content) <= content.len(),
        content.len() > 0 ==> line_end(content) > 0,
    decreases content.len(),
{
    if content.len() > 0 && content[0] != 10 {
        lemma_line_end(content.drop_first());
    }
}

/// The lines of a file, each with its line feed.
pub open spec fn raw_lines(content: Seq<u8>) -> Seq<Seq<u8>>
    decreases content.len(),
{
    if content.len() == 0 {
        seq![]
    } else {
        let k = line_end(content);
        proof {
            lemma_line_end(content);
        }
        seq![content.take(k)] + raw_lines(content.skip(k))
    }
}

/// Lines with the matches of a search in them.
pub open spec fn search_lines(config: SearchConfig, raws: Seq<Seq<u8>>) -> Seq<Line> {
    Seq::new(raws.len(), |i: int| file_search::raw_line(config, raws[i]))
}

/// The lines of a file, with the matches of a search in them.
pub open spec fn file_lines(config: SearchConfig, content: Seq<u8>) -> Seq<Line> {
    search_lines(config, raw_lines(content))
}

/// The lines that are complete: what stands after the last line feed is left
/// out.
pub open spec fn complete(content: Seq<u8>) -> Seq<u8>
    decreases content.len(),
{
    if content.len() == 0 || content.last() == 10 {
        content
    } else {
        complete(content.drop_last())
    }
}

/// What a search reads of a file: all of it, but where reading fails in the
/// middle of a line, that line is lost.
pub open spec fn readable(content: Seq<u8>, failed: bool) -> Seq<u8> {
    if failed {
        complete(content)
    } else {
        content
    }
}

/// How many lines are read, from line `k` on, before the search is finished.
pub open spec fn lines_needed(rules: LineRules, h: Seq<Line>, k: int) -> int
    decreases h.len() - k,
{
    if 0 <= k < h.len() && !rules.finished(h.take(k)) {
        lines_needed(rules, h, k + 1)
    } else {
        k
    }
}

/// How many bytes the first `k` lines take.
pub open spec fn bytes_of(lines: Seq<Seq<u8>>, k: int) -> int
    decreases k,
{
    if k <= 0 {
        0
    } else {
        bytes_of(lines, k - 1) + lines[k - 1].len()
    }
}

/// How much of a file is looked at to tell whether it is binary.
pub const SNIFF_LEN: usize = 1024;

/// The start of a file that is looked at to tell whether it is binary.
pub open spec fn sniffed(content: Seq<u8>) -> Seq<u8> {
    if content.len() < SNIFF_LEN {
        content
    } else {
        content.take(SNIFF_LEN as int)
    }
}

/// A file is binary if its start holds a zero byte.
pub open spec fn holds_zero(start: Seq<u8>) -> bool {
    exists|i: int| 0 <= i < start.len() && #[trigger] start[i] == 0
}

/// Whether the start of a file shows it to be binary.
pub fn is_binary(start: &[u8]) -> (b: bool)
    ensures
        b == holds_zero(start@),
{
    let mut i: usize = 0;
    while i < start.len()
        invariant
            0 <= i <= start.len(),
            forall|j: int| 0 <= j < i ==> #[trigger] start@[j] != 0,
        decreases start.len() - i,
    {
        if start[i] == 0 {
            assert(start@[i as int] == 0);
            return true;
        }
        i += 1;
    }
    false
}

/// What a search finds in a file.
pub ghost struct Found {
    pub rows: Seq<Row>,
    pub matched_lines: int,
    pub bytes_read: int,
    pub io_error: bool,
}

/// What a search finds in a file that holds `content`, where `failed` says that
/// it could not be read any further.
///
/// Nothing is reported of a file of which nothing at all could be read, nor of
/// a binary one. Of any other file, lines are read until the search is
/// finished, and what is reported is what the report of the whole file says. A
/// line in the middle of which reading failed is not searched.
pub open spec fn found_in(
    config: SearchConfig,
    path: Seq<char>,
    content: Seq<u8>,
    failed: bool,
) -> Found {
    let sniff = sniffed(content).len() as int;
    if failed && content.len() == 0 {
        Found { rows: seq![], matched_lines: 0, bytes_read: 0, io_error: true }
    } else if holds_zero(sniffed(content)) {
        Found { rows: seq![], matched_lines: 0, bytes_read: sniff, io_error: false }
    } else {
        let rules = config.spec_rules();
        let raws = raw_lines(readable(content, failed));
        let h = search_lines(config, raws);
        let io_error = failed && !rules.finished(h);
        Found {
            rows: rules.report(path, h, io_error),
            matched_lines: rules.count(h),
            bytes_read: sniff + bytes_of(raws, lines_needed(rules, h, 0)),
            io_error,
        }
    }
}

/// What came of searching a file.
pub struct FileOutcome {
    pub rows: Vec<MatchResult>,
    /// How many lines were selected.
    pub matched_lines: usize,
    /// How many bytes were read: the start of the file, and then each line.
    pub bytes_read: usize,
    /// Reading failed before the search was finished.
    pub io_error: bool,
}

impl View for FileOutcome {
    type V = Found;

    open spec fn view(&self) -> Found {
        Found {
            rows: self.rows.deep_view(),
            matched_lines: self.matched_lines as int,
            bytes_read: self.bytes_read as int,
            io_error: self.io_error,
        }
    }
}

/// Finds where the line that starts at `from` ends.
fn find_line_end(content: &Vec<u8>, from: usize) -> (to: usize)
    requires
        from < content.len(),
    ensures
        from < to <= content.len(),
        to - from == line_end(content@.skip(from as int)),
{
    let mut i: usize = from;
    assert(content@.skip(i as int).len() > 0);
    while i < content.len() && content[i] != 10
        invariant
            from <= i <= content.len(),
            from < content.len(),
            line_end(content@.skip(from as int)) == (i - from) + line_end(content@.skip(i as int)),
        decreases content.len() - i,
    {
        proof {
            let rest = content@.skip(i as int);
            assert(rest[0] == content@[i as int]);
            assert(rest.drop_first() =~= content@.skip(i + 1));
        }
        i += 1;
    }
    proof {
        lemma_line_end(content@.skip(from as int));
        if i < content.len() {
            assert(content@.skip(i as int)[0] == 10);
        }
    }
    if i < content.len() {
        i + 1
    } else {
        i
    }
}

/// Finds where the last complete line ends.
fn find_complete(content: &Vec<u8>) -> (end: usize)
    ensures
        end <= content.len(),
        content@.take(end as int) == complete(content@),
{
    let mut end: usize = content.len();
    assert(content@.take(end as int) =~= content@);
    while end > 0 && content[end - 1] != 10
        invariant
            end <= content.len(),
            complete(content@.take(end as int)) == complete(content@),
        decreases end,
    {
        proof {
            let part = content@.take(end as int);
            assert(part.last() == content@[end - 1]);
            assert(part.drop_last() =~= content@.take(end - 1));
        }
        end = end - 1;
    }
    proof {
        let part = content@.take(end as int);
        if end > 0 {
            assert(part.last() == content@[end - 1]);
        }
    }
    end
}

/// Searches a file held in memory: what comes after decompression, where the
/// file is a compressed one. `failed` says that the file could not be read
/// beyond `content`.
pub fn grep_file(file_path: &str, config: &SearchConfig, content: &Vec<u8>, failed: bool) -> (r:
    FileOutcome)
    requires
        content.len() <= usize::MAX - SNIFF_LEN,
    ensures
        r@ == found_in(*config, file_path@, content@, failed),
{
    let none: Vec<MatchResult> = Vec::new();
    assert(none.deep_view() =~= Seq::<Row>::empty());
    if failed && content.len() == 0 {
        return FileOutcome { rows: none, matched_lines: 0, bytes_read: 0, io_error: true };
    }
    let start_len: usize = if content.len() < SNIFF_LEN {
        content.len()
    } else {
        SNIFF_LEN
    };
    let start: Vec<u8> = copy_range(content, 0, start_len);
    assert(start@ =~= sniffed(content@));
    if is_binary(start.as_slice()) {
        return FileOutcome { rows: none, matched_lines: 0, bytes_read: start_len, io_error: false };
    }
    let mut found = if failed {
        let end: usize = find_complete(content);
        let part: Vec<u8> = copy_range(content, 0, end);
        assert(part@ =~= complete(content@));
        search_content(file_path, config, &part, true)
    } else {
        search_content(file_path, config, content, false)
    };
    found.bytes_read = start_len + found.bytes_read;
    found
}

/// Searches the lines of a file of which enough was seen to search it.
fn search_content(file_path: &str, config: &SearchConfig, content: &Vec<u8>, failed: bool) -> (r:
    FileOutcome)
    ensures
        ({
            let rules = config.spec_rules();
            let h = file_lines(*config, content@);
            &&& r.rows.deep_view() == rules.report(file_path@, h, r.io_error)
            &&& r.matched_lines == rules.count(h)
            &&& r.bytes_read == bytes_of(raw_lines(content@), lines_needed(rules, h, 0))
            &&& r.bytes_read <= content@.len()
            &&& r.io_error == (failed && !rules.finished(h))
        }),
{
    let ghost rules = config.spec_rules();
    let ghost raws = raw_lines(content@);
    let ghost h = file_lines(*config, content@);
    let mut search = FileSearch::new(file_path, config.rules());
    let mut rows: Vec<MatchResult> = Vec::new();
    let mut pos: usize = 0;
    let ghost mut k: int = 0;
    proof {
        assert(content@.skip(0) =~= content@);
        assert(raws.skip(0) =~= raws);
        assert(h.take(0) =~= Seq::<Line>::empty());
        assert(rules.body(file_path@, h.take(0)) =~= Seq::<Row>::empty());
        assert(rows.deep_view() =~= Seq::<Row>::empty());
    }
    while pos < content.len() && search.wants_line()
        invariant
            search.wf(),
            search.path() == file_path@,
            search.rules() == rules,
            rules == config.spec_rules(),
            raws == raw_lines(content@),
            h == file_lines(*config, content@),
            0 <= k <= raws.len(),
            k <= pos <= content.len(),
            raws.skip(k) == raw_lines(content@.skip(pos as int)),
            pos == bytes_of(raws, k),
            search.history() == h.take(k),
            rows.deep_view() == rules.body(file_path@, h.take(k)),
            lines_needed(rules, h, k) == lines_needed(rules, h, 0),
        decreases content.len() - pos,
    {
        let end: usize = find_line_end(content, pos);
        let raw: Vec<u8> = copy_range(content, pos, end);
        proof {
            let rest = content@.skip(pos as int);
            assert(rest.len() > 0);
            assert(raw@ =~= rest.take(line_end(rest)));
            assert(raws.skip(k)[0] == raw@);
            assert(rest.skip(line_end(rest)) =~= content@.skip(end as int));
            assert(raws.skip(k).skip(1) =~= raws.skip(k + 1));
            assert(raw_lines(rest).skip(1) =~= raw_lines(rest.skip(line_end(rest))));
            assert(h.take(k).push(h[k]) =~= h.take(k + 1));
            assert(raws[k] == raw@);
            assert(h[k] == file_search::raw_line(*config, raw@));
        }
        let more = search.feed_bytes(config, raw.as_slice());
        append_rows(&mut rows, more);
        pos = end;
        proof {
            k = k + 1;
        }
    }
    let at_end: bool = pos >= content.len();
    let io_error: bool = failed && at_end && search.wants_line();
    let tail = search.finish(io_error);
    append_rows(&mut rows, tail);
    proof {
        let rest = h.skip(k);
        assert(h =~= h.take(k) + rest);
        if rules.finished(h.take(k)) {
            rules.stopping_loses_nothing(file_path@, h.take(k), rest, io_error);
            assert(k == lines_needed(rules, h, k));
        } else {
            assert(raw_lines(content@.skip(pos as int)).len() == 0);
            assert(raws.skip(k).len() == 0);
            assert(h.take(k) =~= h);
        }
    }
    FileOutcome {
        rows,
        matched_lines: search.match_count(),
        bytes_read: pos,
        io_error,
    }
}

/// The name under which standard input is reported.
pub const STDIN_NAME: &'static str = "<stdin>";

/// The lines of standard input that are read: those before the first one that
/// is not valid UTF-8.
pub open spec fn text_lines(raws: Seq<Seq<u8>>) -> Seq<Seq<u8>>
    decreases raws.len(),
{
    if raws.len() == 0 || !valid_utf8(raws[0]) {
        seq![]
    } else {
        seq![raws[0]] + text_lines(raws.skip(1))
    }
}

/// Whether a line of standard input is read. Reading stops at the first one
/// that is not.
pub fn is_text_line(raw: &[u8]) -> (b: bool)
    ensures
        b == valid_utf8(raw@),
{
    text::is_utf8(raw)
}

/// How much a line of standard input counts for among the bytes read: its
/// length without the terminator, and one.
pub open spec fn stdin_cost(raw: Seq<u8>) -> int {
    if raw.len() == 0 || raw.last() != 10 {
        raw.len() as int + 1
    } else if raw.len() >= 2 && raw[raw.len() - 2] == 13 {
        raw.len() - 1
    } else {
        raw.len() as int
    }
}

/// What the first `k` lines of standard input count for.
pub open spec fn stdin_costs(lines: Seq<Seq<u8>>, k: int) -> int
    decreases k,
{
    if k <= 0 {
        0
    } else {
        stdin_costs(lines, k - 1) + stdin_cost(lines[k - 1])
    }
}

/// How much a line of standard input counts for among the bytes read.
pub fn cost_of_line(raw: &[u8]) -> (n: usize)
    requires
        raw@.len() < usize::MAX,
    ensures
        n == stdin_cost(raw@),
{
    let n: usize = raw.len();
    if n == 0 || raw[n - 1] != 10 {
        n + 1
    } else if n >= 2 && raw[n - 2] == 13 {
        n - 1
    } else {
        n
    }
}

/// What came of searching standard input.
pub struct StdinOutcome {
    /// The lines to print.
    pub lines: Vec<String>,
    /// How many lines were selected.
    pub matched_lines: usize,
    /// How many bytes were read, counted line by line.
    pub bytes_read: usize,
}

/// The lines are the rows as they are printed.
pub open spec fn prints_rows(lines: Seq<String>, config: SearchConfig, rows: Seq<Row>) -> bool {
    &&& lines.len() == rows.len()
    &&& forall|i: int|
        0 <= i < lines.len() ==> display::is_printed_row(
            (#[trigger] lines[i])@,
            config,
            rows[i],
            false,
        )
}

fn print_rows(lines: &mut Vec<String>, config: &SearchConfig, rows: &Vec<MatchResult>, known: Ghost<
    Seq<Row>,
>)
    requires
        prints_rows(old(lines)@, *config, known@),
    ensures
        prints_rows(final(lines)@, *config, known@ + rows.deep_view()),
{
    let mut i: usize = 0;
    assert(known@ + rows.deep_view().take(0) =~= known@);
    while i < rows.len()
        invariant
            0 <= i <= rows.len(),
            prints_rows(lines@, *config, known@ + rows.deep_view().take(i as int)),
        decreases rows.len() - i,
    {
        let line = display::print_stdin_line(&rows[i], config);
        lines.push(line);
        proof {
            let all = rows.deep_view();
            assert(known@ + all.take(i + 1) =~= (known@ + all.take(i as int)).push(all[i as int]));
        }
        i += 1;
    }
    assert(rows.deep_view().take(rows.len() as int) =~= rows.deep_view());
}

/// Searches standard input, once it is all in memory. It is searched as a file
/// is, but never taken for a binary one, and only up to the first line that is
/// not valid UTF-8. Its rows come out ready to print.
pub fn grep_stdin(config: &SearchConfig, input: &Vec<u8>) -> (r: StdinOutcome)
    requires
        input.len() < usize::MAX,
    ensures
        ({
            let rules = config.spec_rules();
            let texts = text_lines(raw_lines(input@));
            let h = search_lines(*config, texts);
            &&& prints_rows(r.lines@, *config, rules.report(STDIN_NAME@, h, false))
            &&& r.matched_lines == rules.count(h)
            &&& r.bytes_read == stdin_costs(texts, lines_needed(rules, h, 0))
        }),
{
    let ghost rules = config.spec_rules();
    let ghost texts = text_lines(raw_lines(input@));
    let ghost h = search_lines(*config, texts);
    let ghost name = STDIN_NAME@;
    let mut search = FileSearch::new(STDIN_NAME, config.rules());
    let mut lines: Vec<String> = Vec::new();
    let mut bytes_read: usize = 0;
    let mut pos: usize = 0;
    let mut readable: bool = true;
    let ghost mut k: int = 0;
    proof {
        assert(input@.skip(0) =~= input@);
        assert(texts.skip(0) =~= texts);
        assert(h.take(0) =~= Seq::<Line>::empty());
        assert(rules.body(name, h.take(0)) =~= Seq::<Row>::empty());
    }
    while readable && pos < input.len() && search.wants_line()
        invariant
            input.len() < usize::MAX,
            search.wf(),
            search.path() == name,
            search.rules() == rules,
            rules == config.spec_rules(),
            h == search_lines(*config, texts),
            0 <= k <= texts.len(),
            k <= pos <= input.len(),
            texts.skip(k) == text_lines(raw_lines(input@.skip(pos as int))),
            !readable ==> k == texts.len(),
            bytes_read == stdin_costs(texts, k),
            bytes_read <= pos + 1,
            pos < input.len() ==> bytes_read <= pos,
            search.history() == h.take(k),
            prints_rows(lines@, *config, rules.body(name, h.take(k))),
            lines_needed(rules, h, k) == lines_needed(rules, h, 0),
        decreases input.len() - pos, if readable { 1int } else { 0 },
    {
        let end: usize = find_line_end(input, pos);
        let raw: Vec<u8> = copy_range(input, pos, end);
        proof {
            let rest = input@.skip(pos as int);
            assert(rest.len() > 0);
            assert(raw@ =~= rest.take(line_end(rest)));
            assert(raw_lines(rest)[0] == raw@);
            assert(rest.skip(line_end(rest)) =~= input@.skip(end as int));
            assert(raw_lines(rest).skip(1) =~= raw_lines(input@.skip(end as int)));
            lemma_line_is_ended(rest);
        }
        if is_text_line(raw.as_slice()) {
            proof {
                assert(texts.skip(k)[0] == raw@);
                assert(texts.skip(k).skip(1) =~= texts.skip(k + 1));
                assert(texts.skip(k).skip(1) =~= text_lines(raw_lines(input@.skip(end as int))));
                assert(texts[k] == raw@);
                assert(h.take(k).push(h[k]) =~= h.take(k + 1));
                assert(h[k] == file_search::raw_line(*config, raw@));
            }
            bytes_read = bytes_read + cost_of_line(raw.as_slice());
            let more = search.feed_bytes(config, raw.as_slice());
            print_rows(&mut lines, config, &more, Ghost(rules.body(name, h.take(k))));
            pos = end;
            proof {
                k = k + 1;
            }
        } else {
            assert(texts.skip(k).len() == 0);
            readable = false;
        }
    }
    let tail = search.finish(false);
    print_rows(&mut lines, config, &tail, Ghost(rules.body(name, h.take(k))));
    proof {
        let rest = h.skip(k);
        assert(h =~= h.take(k) + rest);
        if rules.finished(h.take(k)) {
            rules.stopping_loses_nothing(name, h.take(k), rest, false);
            assert(k == lines_needed(rules, h, k));
        } else {
            if readable {
                assert(raw_lines(input@.skip(pos as int)).len() == 0);
                assert(texts.skip(k).len() == 0);
            }
            assert(h.take(k) =~= h);
        }
    }
    StdinOutcome { lines, matched_lines: search.match_count(), bytes_read }
}

/// Lines that are valid UTF-8 are all read.
proof fn lemma_all_text(raws: Seq<Seq<u8>>)
    requires
        forall|i: int| 0 <= i < raws.len() ==> valid_utf8(#[trigger] raws[i]),
    ensures
        text_lines(raws) == raws,
    decreases raws.len(),
{
    if raws.len() > 0 {
        let rest = raws.skip(1);
        assert forall|i: int| 0 <= i < rest.len() implies valid_utf8(#[trigger] rest[i]) by {
            assert(rest[i] == raws[i + 1]);
        }
        lemma_all_text(rest);
        assert(valid_utf8(raws[0]));
    }
    assert(text_lines(raws) =~= raws);
}

/// Text is searched on standard input as it is in a file: the same lines are
/// looked at, so as many are selected, and the report is the same but for the
/// name.
pub proof fn stdin_is_searched_as_a_file_is(
    config: SearchConfig,
    path: Seq<char>,
    content: Seq<u8>,
)
    requires
        forall|i: int| 0 <= i < raw_lines(content).len() ==> valid_utf8(
            #[trigger] raw_lines(content)[i],
        ),
    ensures
        ({
            let rules = config.spec_rules();
            let on_stdin = search_lines(config, text_lines(raw_lines(content)));
            let in_file = search_lines(config, raw_lines(readable(content, false)));
            &&& on_stdin == in_file
            &&& rules.report(STDIN_NAME@, on_stdin, false) == row_laws::renamed(
                rules.report(path, in_file, false),
                STDIN_NAME@,
            )
        }),
{
    lemma_all_text(raw_lines(content));
    let h = search_lines(config, raw_lines(content));
    config.spec_rules().name_is_all_that_differs(path, STDIN_NAME@, h, false);
}

/// A line that is not the last one ends with a line feed.
proof fn lemma_line_is_ended(content: Seq<u8>)
    requires
        content.len() > 0,
    ensures
        0 < line_end(content) <= content.len(),
        line_end(content) < content.len() ==> content[line_end(content) - 1] == 10,
    decreases content.len(),
{
    lemma_line_end(content);
    if content[0] != 10 {
        let rest = content.drop_first();
        if rest.len() > 0 {
            lemma_line_is_ended(rest);
        } else {
            assert(line_end(rest) == 0);
        }
    }
}

/// The bytes of `v` from `lo` up to `hi`.
fn copy_range(v: &Vec<u8>, lo: usize, hi: usize) -> (r: Vec<u8>)
    requires
        lo <= hi <= v.len(),
    ensures
        r@ == v@.subrange(lo as int, hi as int),
{
    let mut out: Vec<u8> = Vec::new();
    let mut i: usize = lo;
    while i < hi
        invariant
            lo <= i <= hi <= v.len(),
            out@ == v@.subrange(lo as int, i as int),
        decreases hi - i,
    {
        out.push(v[i]);
        assert(out@ =~= v@.subrange(lo as int, i + 1));
        i += 1;
    }
    out
}

fn append_rows(rows: &mut Vec<MatchResult>, more: Vec<MatchResult>)
    ensures
        final(rows).deep_view() == old(rows).deep_view() + more.deep_view(),
{
    let ghost extra = more.deep_view();
    let mut rest = more;
    rows.append(&mut rest);
    assert(rows.deep_view() =~= old(rows).deep_view() + extra);
}

} // verus!
