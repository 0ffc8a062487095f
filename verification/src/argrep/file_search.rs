//! The search of one file, line by line.

use crate::argrep::config::{MatchResult, SearchConfig};
use crate::argrep::matcher;
use crate::argrep::rows;
use crate::argrep::rows::{Line, LineRules, Mode, Row};
use crate::argrep::sanitize;
use crate::text;
use std::collections::VecDeque;
use vstd::prelude::*;
use vstd::string::*;
use vstd::utf8::*;

verus! {

/// A search in progress: what has to be remembered of the lines read so far.
pub struct FileSearch {
    path: String,
    rules: LineRules,
    line_num: usize,
    match_count: usize,
    /// How many of the lines to come are trailing context.
    after_remaining: usize,
    /// The number of the last line shown, or zero.
    last_printed: usize,
    /// The lines that a selected line right now would show as its leading
    /// context, ready to print.
    pending: VecDeque<String>,
    history: Ghost<Seq<Line>>,
}

fn name_result(path: &str) -> (r: MatchResult)
    ensures
        r@ == rows::name_row(path@),
{
    MatchResult {
        file_path: path.to_string(),
        line_num: 0,
        line_content: String::new(),
        count: None,
        is_context: false,
        is_separator: false,
    }
}

fn separator_result(path: &str) -> (r: MatchResult)
    ensures
        r@ == rows::separator_row(path@),
{
    MatchResult {
        file_path: path.to_string(),
        line_num: 0,
        line_content: String::new(),
        count: None,
        is_context: false,
        is_separator: true,
    }
}

fn count_result(path: &str, n: usize) -> (r: MatchResult)
    ensures
        r@ == rows::count_row(path@, n as int),
{
    MatchResult {
        file_path: path.to_string(),
        line_num: 0,
        line_content: String::new(),
        count: Some(n),
        is_context: false,
        is_separator: false,
    }
}

/// A row for a line whose text has been made printable.
fn line_result(path: &str, line_num: usize, content: String, is_context: bool) -> (r: MatchResult)
    ensures
        forall|t: Seq<char>|
            content@ == #[trigger] sanitize::sanitized(t) ==> r@ == rows::line_row(
                path@,
                line_num as int,
                t,
                is_context,
            ),
{
    MatchResult {
        file_path: path.to_string(),
        line_num,
        line_content: content,
        count: None,
        is_context,
        is_separator: false,
    }
}

impl FileSearch {
    /// The lines read so far.
    pub closed spec fn history(&self) -> Seq<Line> {
        self.history@
    }

    /// The file that is searched.
    pub closed spec fn path(&self) -> Seq<char> {
        self.path@
    }

    /// The rules that the search goes by.
    pub closed spec fn rules(&self) -> LineRules {
        self.rules
    }

    /// What is remembered of the lines shown, and of those that may yet be,
    /// fits the lines `h`.
    spec fn shows(&self, h: Seq<Line>) -> bool {
        let n = h.len() as int;
        let p = self.last_printed as int;
        &&& self.rules.is_frontier(h, p)
        &&& n - self.pending@.len() == self.rules.reach(h, p)
        &&& forall|k: int|
            0 <= k < self.pending@.len() ==> (#[trigger] self.pending@[k])@ == sanitize::sanitized(
                h[n - self.pending@.len() + k].text,
            )
    }

    /// What is remembered fits the lines read.
    pub closed spec fn wf(&self) -> bool {
        let h = self.history@;
        &&& self.line_num == h.len()
        &&& self.match_count == self.rules.count(h)
        &&& self.after_remaining == self.rules.trailing(h)
        &&& self.rules.mode is Lines ==> self.shows(h)
    }

    /// Starts the search of a file.
    pub fn new(path: &str, rules: LineRules) -> (r: Self)
        ensures
            r.wf(),
            r.path() == path@,
            r.rules() == rules,
            r.history() == Seq::<Line>::empty(),
    {
        proof {
            rules.lemma_start();
        }
        FileSearch {
            path: path.to_string(),
            rules,
            line_num: 0,
            match_count: 0,
            after_remaining: 0,
            last_printed: 0,
            pending: VecDeque::new(),
            history: Ghost(Seq::empty()),
        }
    }

    /// The number of lines read.
    pub fn lines_read(&self) -> (n: usize)
        requires
            self.wf(),
        ensures
            n == self.history().len(),
    {
        self.line_num
    }

    /// The number of lines selected.
    pub fn match_count(&self) -> (n: usize)
        requires
            self.wf(),
        ensures
            n == self.rules().count(self.history()),
    {
        self.match_count
    }

    fn has_room(&self) -> (b: bool)
        requires
            self.wf(),
        ensures
            b == self.rules.has_room(self.rules.count(self.history@)),
    {
        match self.rules.mode {
            Mode::Quiet | Mode::ListMatching | Mode::ListMissing => self.match_count < 1,
            _ => match self.rules.max_count {
                Some(m) => if m == 0 {
                    self.match_count < 1
                } else {
                    self.match_count < m
                },
                None => true,
            },
        }
    }

    /// Whether another line could still be reported. Once it is not, reading
    /// on would change nothing.
    pub fn wants_line(&self) -> (b: bool)
        requires
            self.wf(),
        ensures
            b == !self.rules().finished(self.history()),
    {
        self.has_room() || self.after_remaining > 0
    }

    /// Hands out the lines that wait, as leading context.
    fn flush_pending(&mut self, out: &mut Vec<MatchResult>)
        requires
            old(self).shows(old(self).history@),
            old(self).line_num == old(self).history@.len(),
        ensures
            final(self).path == old(self).path,
            final(self).rules == old(self).rules,
            final(self).line_num == old(self).line_num,
            final(self).match_count == old(self).match_count,
            final(self).after_remaining == old(self).after_remaining,
            final(self).last_printed == old(self).last_printed,
            final(self).history == old(self).history,
            final(self).pending@.len() == 0,
            final(out).deep_view() == old(out).deep_view() + old(self).rules.context_rows(
                old(self).path@,
                old(self).history@,
                old(self).rules.reach(old(self).history@, old(self).last_printed as int),
                old(self).history@.len() as int,
            ),
    {
        let ghost me = *self;
        let ghost h = me.history@;
        let ghost waiting = me.pending@;
        let ghost rows = out.deep_view();
        let ghost q = me.rules.reach(h, me.last_printed as int);
        let mut num: usize = self.line_num - self.pending.len();
        assert(waiting.subrange(0, waiting.len() as int) =~= waiting);
        assert(out.deep_view() =~= rows + me.rules.context_rows(me.path@, h, q, q));
        while self.pending.len() > 0
            invariant
                q <= num <= h.len() == me.line_num,
                self.pending@.len() == h.len() - num,
                self.pending@ == waiting.subrange(num - q, waiting.len() as int),
                waiting.len() == h.len() - q,
                self.path == me.path,
                self.rules == me.rules,
                self.line_num == me.line_num,
                self.match_count == me.match_count,
                self.after_remaining == me.after_remaining,
                self.last_printed == me.last_printed,
                self.history == me.history,
                forall|k: int|
                    0 <= k < waiting.len() ==> (#[trigger] waiting[k])@ == sanitize::sanitized(
                        h[q + k].text,
                    ),
                out.deep_view() == rows + me.rules.context_rows(me.path@, h, q, num as int),
            decreases self.pending@.len(),
        {
            let ghost before = self.pending@;
            let ghost rows_before = out.deep_view();
            if let Some(content) = self.pending.pop_front() {
                proof {
                    assert(before[0] == waiting[num - q]);
                    assert(content@ == sanitize::sanitized(h[num as int].text));
                    assert(self.pending@ =~= waiting.subrange(num + 1 - q, waiting.len() as int));
                }
                let row = line_result(self.path.as_str(), num + 1, content, true);
                let ghost made = row@;
                out.push(row);
                num = num + 1;
                proof {
                    assert(made == rows::line_row(me.path@, num as int, h[num - 1].text, true));
                    assert(out.deep_view() =~= rows_before.push(made));
                    assert(me.rules.context_rows(me.path@, h, q, num as int)
                        =~= me.rules.context_rows(me.path@, h, q, num - 1).push(made));
                    assert(out.deep_view() =~= rows + me.rules.context_rows(
                        me.path@,
                        h,
                        q,
                        num as int,
                    ));
                }
            }
        }
    }

    /// The rows for the next line where lines are shown with their context.
    fn show_line(&mut self, text: &str, is_chosen: bool, hits: Ghost<Seq<(usize, usize)>>) -> (r: Vec<
        MatchResult,
    >)
        requires
            old(self).wf(),
            old(self).rules.mode is Lines,
            old(self).history@.len() < usize::MAX,
            is_chosen == old(self).rules.chosen(
                old(self).history@.push(Line { text: text@, hits: hits@ }),
                old(self).history@.len() as int,
            ),
        ensures
            final(self).path == old(self).path,
            final(self).rules == old(self).rules,
            final(self).line_num == old(self).line_num,
            final(self).match_count == old(self).match_count,
            final(self).history == old(self).history,
            final(self).after_remaining == old(self).rules.trailing(
                old(self).history@.push(Line { text: text@, hits: hits@ }),
            ),
            final(self).shows(old(self).history@.push(Line { text: text@, hits: hits@ })),
            r.deep_view() == old(self).rules.new_rows(
                old(self).path@,
                old(self).history@,
                Line { text: text@, hits: hits@ },
                old(self).last_printed as int,
            ),
    {
        let ghost h = self.history@;
        let ghost n = h.len() as int;
        let ghost l = Line { text: text@, hits: hits@ };
        let ghost h2 = h.push(l);
        let ghost path = self.path@;
        let ghost p = self.last_printed as int;
        let rules = self.rules;
        proof {
            rules.lemma_lines_step(path, h, l, p);
            rules.lemma_push_last_chosen(h, l);
            rules.lemma_last_chosen(h);
        }
        let mut out: Vec<MatchResult> = Vec::new();
        assert(out.deep_view() =~= seq![]);
        let clean = sanitize::clean_text(text);
        if is_chosen {
            let has_context: bool = rules.before > 0 || rules.after > 0;
            let first: usize = self.line_num - self.pending.len();
            if has_context && self.last_printed > 0 && first > self.last_printed {
                out.push(separator_result(self.path.as_str()));
                assert(out.deep_view() =~= seq![rows::separator_row(path)]);
            }
            self.flush_pending(&mut out);
            let ghost rows_before = out.deep_view();
            let row = line_result(self.path.as_str(), self.line_num + 1, clean, false);
            let ghost made = row@;
            out.push(row);
            proof {
                assert(made == rows::line_row(path, n + 1, l.text, false));
                assert(out.deep_view() =~= rows_before.push(made));
                assert(out.deep_view() =~= rules.new_rows(path, h, l, p));
            }
            self.last_printed = self.line_num + 1;
            self.after_remaining = rules.after;
        } else if self.after_remaining > 0 {
            let row = line_result(self.path.as_str(), self.line_num + 1, clean, true);
            let ghost made = row@;
            out.push(row);
            proof {
                assert(made == rows::line_row(path, n + 1, l.text, true));
                assert(out.deep_view() =~= rules.new_rows(path, h, l, p));
            }
            self.last_printed = self.line_num + 1;
            self.after_remaining = self.after_remaining - 1;
        } else if rules.before > 0 {
            let ghost waiting = self.pending@;
            if self.pending.len() == rules.before {
                let _ = self.pending.pop_front();
            }
            self.pending.push_back(clean);
            proof {
                let m = self.pending@.len() as int;
                assert forall|k: int| 0 <= k < m implies (#[trigger] self.pending@[k])@
                    == sanitize::sanitized(h2[n + 1 - m + k].text) by {
                    if k < m - 1 {
                        assert(self.pending@[k] == waiting[waiting.len() - (m - 1) + k]);
                    }
                }
            }
        }
        out
    }

    /// One row for each match in the next line.
    fn piece_results(&self, text: &str, hits: &Vec<(usize, usize)>) -> (r: Vec<MatchResult>)
        requires
            self.line_num < usize::MAX,
            matcher::spans_fit(hits@, text@),
        ensures
            r.deep_view() == self.rules.piece_rows(
                self.path@,
                self.line_num + 1,
                Line { text: text@, hits: hits@ },
            ),
            r@.len() == hits@.len(),
            forall|i: int|
                0 <= i < hits@.len() ==> (#[trigger] r@[i]).line_content@ == sanitize::sanitized(
                    decode_utf8(
                        encode_utf8(text@).subrange(hits@[i].0 as int, hits@[i].1 as int),
                    ),
                ),
    {
        let ghost all = self.rules.piece_rows(
            self.path@,
            self.line_num + 1,
            Line { text: text@, hits: hits@ },
        );
        let mut out: Vec<MatchResult> = Vec::new();
        assert(out.deep_view() =~= all.take(0));
        let mut i: usize = 0;
        while i < hits.len()
            invariant
                0 <= i <= hits.len(),
                self.line_num < usize::MAX,
                matcher::spans_fit(hits@, text@),
                all == self.rules.piece_rows(
                    self.path@,
                    self.line_num + 1,
                    Line { text: text@, hits: hits@ },
                ),
                out.deep_view() == all.take(i as int),
                out@.len() == i,
                forall|j: int|
                    0 <= j < i ==> (#[trigger] out@[j]).line_content@ == sanitize::sanitized(
                        decode_utf8(
                            encode_utf8(text@).subrange(hits@[j].0 as int, hits@[j].1 as int),
                        ),
                    ),
            decreases hits.len() - i,
        {
            let (lo, hi) = hits[i];
            assert(hits@[i as int] == (lo, hi));
            let piece = text::slice_bytes(text, lo, hi);
            let content = sanitize::clean_text(piece);
            let ghost rows_before = out.deep_view();
            let row = line_result(self.path.as_str(), self.line_num + 1, content, false);
            let ghost made = row@;
            out.push(row);
            proof {
                assert(made == all[i as int]);
                assert(out.deep_view() =~= rows_before.push(made));
                assert(all.take(i + 1) =~= all.take(i as int).push(all[i as int]));
            }
            i += 1;
        }
        assert(all.take(hits.len() as int) =~= all);
        out
    }

    /// Takes the next line and the matches in it, and hands out what is
    /// reported for it.
    pub fn feed(&mut self, text: &str, hits: &Vec<(usize, usize)>) -> (r: Vec<MatchResult>)
        requires
            old(self).wf(),
            old(self).history().len() < usize::MAX,
            matcher::spans_fit(hits@, text@),
        ensures
            final(self).wf(),
            final(self).path() == old(self).path(),
            final(self).rules() == old(self).rules(),
            final(self).history() == old(self).history().push(Line { text: text@, hits: hits@ }),
            final(self).rules().body(final(self).path(), final(self).history())
                == old(self).rules().body(old(self).path(), old(self).history()) + r.deep_view(),
    {
        let ghost h = self.history@;
        let ghost n = h.len() as int;
        let ghost l = Line { text: text@, hits: hits@ };
        let ghost h2 = h.push(l);
        let ghost path = self.path@;
        let ghost p = self.last_printed as int;
        let rules = self.rules;
        let is_chosen: bool = ((hits.len() > 0) != rules.invert) && self.has_room();
        proof {
            rules.lemma_push_chosen(h, l);
            rules.lemma_push_last_chosen(h, l);
            rules.lemma_count_fits(h);
            assert(h2.drop_last() =~= h);
            assert(is_chosen == rules.chosen(h2, n));
        }
        let out: Vec<MatchResult>;
        match rules.mode {
            Mode::Lines => {
                proof {
                    rules.lemma_lines_step(path, h, l, p);
                }
                out = self.show_line(text, is_chosen, Ghost(hits@));
            },
            Mode::Pieces if is_chosen => {
                out = self.piece_results(text, hits);
            },
            Mode::ListMatching if is_chosen => {
                out = vec![name_result(self.path.as_str())];
                assert(out.deep_view() =~= seq![rows::name_row(path)]);
            },
            _ => {
                out = Vec::new();
                assert(out.deep_view() =~= seq![]);
            },
        }
        if is_chosen {
            self.match_count = self.match_count + 1;
        }
        self.line_num = self.line_num + 1;
        self.history = Ghost(h2);
        assert(rules.body(path, h2) =~= rules.body(path, h) + out.deep_view());
        out
    }

    /// Ends the search, and hands out what is reported for the file as a
    /// whole. `failed` says that reading broke off before the end.
    pub fn finish(&self, failed: bool) -> (r: Vec<MatchResult>)
        requires
            self.wf(),
        ensures
            r.deep_view() == self.rules().tail(self.path(), self.history(), failed),
    {
        let mut out: Vec<MatchResult> = Vec::new();
        assert(out.deep_view() =~= seq![]);
        if self.rules.count_at_end {
            out.push(count_result(self.path.as_str(), self.match_count));
            assert(out.deep_view() =~= seq![
                rows::count_row(self.path@, self.match_count as int),
            ]);
        }
        let ghost counted = out.deep_view();
        if self.rules.missing_at_end && self.match_count == 0 && !failed {
            out.push(name_result(self.path.as_str()));
            assert(out.deep_view() =~= counted + seq![rows::name_row(self.path@)]);
        } else {
            assert(out.deep_view() =~= counted + Seq::<Row>::empty());
        }
        out
    }

    /// Takes the next line, without its terminator, and hands out what is
    /// reported for it. With a matcher built under -F alone the line has a
    /// match exactly where the query stands in it.
    pub fn feed_line(&mut self, config: &SearchConfig, text: &str) -> (r: Vec<MatchResult>)
        requires
            old(self).wf(),
            old(self).history().len() < usize::MAX,
        ensures
            final(self).wf(),
            final(self).path() == old(self).path(),
            final(self).rules() == old(self).rules(),
            final(self).history() == old(self).history().push(
                Line { text: text@, hits: config.hits(text@) },
            ),
            final(self).rules().body(final(self).path(), final(self).history())
                == old(self).rules().body(old(self).path(), old(self).history()) + r.deep_view(),
            forall|query: Seq<char>, opts: matcher::MatchOptions|
                opts.fixed_strings && !opts.ignore_case && !opts.whole_word && !opts.whole_line
                    && matcher::regex_folds_case(config.regex) == opts.ignore_case
                    && matcher::regex_pattern(config.regex) == #[trigger] matcher::query_pattern(
                    query,
                    opts,
                ) ==> (final(self).history().last().hits.len() > 0) == matcher::occurs_in(
                    query,
                    text@,
                ),
    {
        let hits: Vec<(usize, usize)> = if matcher::line_matches(&config.regex, text) {
            matcher::find_spans(&config.regex, text)
        } else {
            Vec::new()
        };
        assert(hits@ =~= config.hits(text@));
        self.feed(text, &hits)
    }

    /// Takes the next line as it stands in the file, and hands out what is
    /// reported for it.
    pub fn feed_bytes(&mut self, config: &SearchConfig, raw: &[u8]) -> (r: Vec<MatchResult>)
        requires
            old(self).wf(),
            old(self).history().len() < usize::MAX,
        ensures
            final(self).wf(),
            final(self).path() == old(self).path(),
            final(self).rules() == old(self).rules(),
            final(self).history() == old(self).history().push(raw_line(*config, raw@)),
            final(self).rules().body(final(self).path(), final(self).history())
                == old(self).rules().body(old(self).path(), old(self).history()) + r.deep_view(),
    {
        let decoded = text::decode_lossy(raw);
        let line = text::strip_terminator(decoded.as_str());
        self.feed_line(config, line.as_str())
    }
}

/// The text of a line as it stands in a file.
pub open spec fn raw_text(raw: Seq<u8>) -> Seq<char> {
    text::without_terminator(text::lossy_text(raw))
}

/// A line as it stands in a file, with the matches of a search in it.
pub open spec fn raw_line(config: SearchConfig, raw: Seq<u8>) -> Line {
    Line { text: raw_text(raw), hits: config.hits(raw_text(raw)) }
}

} // verus!
