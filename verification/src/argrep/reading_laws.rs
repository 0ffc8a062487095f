//! How long a search goes on reading, and what comes of standard input.

use crate::argrep::config::SearchConfig;
use crate::argrep::content;
use crate::argrep::display;
use crate::argrep::listing_laws;
use crate::argrep::matcher;
use crate::argrep::print_laws;
use crate::argrep::rows;
use crate::argrep::rows::{Line, LineRules, Row};
use crate::decimal;
use crate::paint;
use crate::paint::Style;
use crate::runs;
use crate::text;
use vstd::prelude::*;

verus! {

impl LineRules {
    /// A search goes on as long as there is anything to wait for: where it is not
    /// finished, there is a line that would be selected or listed if it came
    /// next.
    pub proof fn reading_goes_on_for_something(self, path: Seq<char>, h: Seq<Line>) -> (l: Line)
        requires
            !self.finished(h),
        ensures
            self.count(h.push(l)) == self.count(h) + 1 || self.body(path, h.push(l)) != self.body(
                path,
                h,
            ),
    {
        let n = h.len() as int;
        if self.has_room(self.selections(h) as int) {
            let l = Line {
                text: seq![],
                hits: if self.invert {
                    seq![]
                } else {
                    seq![(0usize, 0usize)]
                },
            };
            self.lemma_push_selections(h, l);
            l
        } else {
            let l = Line { text: seq![], hits: seq![] };
            let g = h.push(l);
            let last = self.last_chosen(h);
            self.lemma_last_chosen(h);
            self.choice_is_settled(h, l, last);
            assert(self.chosen(g, last) && self.near(n, last));
            self.shown_lines_are_listed(path, g, n);
            if self.body(path, g) == self.body(path, h) {
                let row = rows::line_row(path, n + 1, g[n].text, !self.chosen(g, n));
                let at = self.body(path, h).index_of(row);
                let i = self.listed_lines_are_shown(path, h, at);
                assert(i + 1 == n + 1);
            }
            l
        }
    }

    /// Under -q, -l and -L one selected line settles what is reported, and the
    /// search is finished with it.
    pub proof fn one_line_settles_a_summary(self, h: Seq<Line>)
        requires
            self.mode is Quiet || self.mode is ListMatching || self.mode is ListMissing,
        ensures
            self.finished(h) <==> runs::amount(h, listing_laws::selected(self.invert)) >= 1,
            self.count(h) == if runs::amount(h, listing_laws::selected(self.invert)) >= 1 {
                1int
            } else {
                0int
            },
    {
        self.lemma_selections(h);
    }

    /// Otherwise a search is finished once as many lines were selected as -m
    /// allows, and, where lines are listed, as many lines of context were read
    /// behind the last of them as -A asks for. Without -m it never is.
    pub proof fn limits_finish_a_search(self, h: Seq<Line>)
        requires
            self.mode is Lines || self.mode is Pieces || self.mode is Count,
        ensures
            self.max_count is None ==> !self.finished(h),
            self.max_count matches Some(m) ==> m >= 1 ==> {
                self.finished(h) <==> {
                    &&& runs::amount(h, listing_laws::selected(self.invert)) >= m
                    &&& self.mode is Lines ==> forall|j: int| #[trigger]
                        self.chosen(h, j) ==> h.len() - 1 - j >= self.after
                }
            },
    {
        self.lemma_selections(h);
        self.lemma_last_chosen(h);
        let last = self.last_chosen(h);
        if self.mode is Lines && last >= 0 {
            assert(self.chosen(h, last));
        }
    }
}

proof fn lemma_needed(rules: LineRules, h: Seq<Line>, k: int)
    requires
        0 <= k <= h.len(),
    ensures
        ({
            let n = content::lines_needed(rules, h, k);
            &&& k <= n <= h.len()
            &&& n < h.len() ==> rules.finished(h.take(n))
            &&& forall|j: int| k <= j < n ==> !rules.finished(#[trigger] h.take(j))
        }),
    decreases h.len() - k,
{
    if k < h.len() && !rules.finished(h.take(k)) {
        lemma_needed(rules, h, k + 1);
        let n = content::lines_needed(rules, h, k);
        assert forall|j: int| k <= j < n implies !rules.finished(#[trigger] h.take(j)) by {
            if j == k {
            }
        }
    }
}

/// No line is read once a search is finished, and no line is left unread before
/// that.
pub proof fn reading_stops_once_finished(rules: LineRules, h: Seq<Line>)
    ensures
        ({
            let n = content::lines_needed(rules, h, 0);
            &&& 0 <= n <= h.len()
            &&& n < h.len() ==> rules.finished(h.take(n))
            &&& forall|j: int| 0 <= j < n ==> !rules.finished(#[trigger] h.take(j))
        }),
{
    lemma_needed(rules, h, 0);
}

/// What comes of standard input is printed row by row, and its lines come
/// without a name: behind their number and a mark under -n, and else alone.
pub proof fn lines_of_stdin_come_without_a_name(
    lines: Seq<String>,
    config: SearchConfig,
    rows: Seq<Row>,
    i: int,
) -> (parts: (Seq<char>, Seq<char>))
    requires
        content::prints_rows(lines, config, rows),
        0 <= i < rows.len(),
        !rows[i].separator,
        !config.files_with_matches,
        !config.files_without_match,
        !config.files_only,
        !config.count_per_file,
    ensures
        lines.len() == rows.len(),
        ({
            let (number, body) = parts;
            let mark = if rows[i].context {
                '-'
            } else {
                ':'
            };
            &&& lines[i]@ == (if config.line_number {
                number.push(mark)
            } else {
                seq![]
            }) + body
            &&& config.line_number ==> paint::is_painted(
                number,
                decimal::decimal(rows[i].num),
                Style::Green,
            )
            &&& rows[i].context ==> body == text::trimmed_end(rows[i].text)
            &&& !rows[i].context ==> exists|line: Seq<char>| #[trigger]
                paint::prints_all(
                    line,
                    display::highlighted(
                        rows[i].text,
                        matcher::regex_spans(
                            matcher::regex_pattern(config.regex),
                            matcher::regex_folds_case(config.regex),
                            rows[i].text,
                        ),
                    ),
                ) && body == text::trimmed_end(line)
        }),
{
    let (_, number, body) = print_laws::lines_are_printed_behind_name_and_number(
        lines[i]@,
        config,
        rows[i],
        false,
    );
    let mark = if rows[i].context {
        '-'
    } else {
        ':'
    };
    assert(number.push(mark) =~= number + seq![mark]);
    assert(lines[i]@ =~= (if config.line_number {
        number.push(mark)
    } else {
        seq![]
    }) + body);
    (number, body)
}

} // verus!
