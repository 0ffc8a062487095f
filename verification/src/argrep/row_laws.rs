//! How a report grows with each line read, and what holds of every report.

use crate::argrep::config::SearchConfig;
use crate::argrep::rows;
use crate::argrep::rows::{Line, LineRules, Row};
use crate::argrep::sanitize;
use crate::text;
use vstd::prelude::*;

verus! {

impl LineRules {
    /// A further line changes nothing about which of the lines before it are
    /// selected.
    pub proof fn choice_is_settled(self, h: Seq<Line>, l: Line, i: int)
        requires
            i < h.len(),
        ensures
            self.chosen(h.push(l), i) == self.chosen(h, i),
    {
        if 0 <= i {
            assert(h.push(l).take(i) =~= h.take(i));
        }
    }

    pub(crate) proof fn lemma_last_chosen(self, h: Seq<Line>)
        ensures
            -1 <= self.last_chosen(h) < h.len(),
            self.last_chosen(h) >= 0 ==> self.chosen(h, self.last_chosen(h)),
            forall|j: int| #[trigger] self.chosen(h, j) ==> j <= self.last_chosen(h),
        decreases h.len(),
    {
        if h.len() > 0 {
            let shorter = h.drop_last();
            self.lemma_last_chosen(shorter);
            assert(shorter.push(h.last()) =~= h);
            assert forall|j: int| j < shorter.len() implies #[trigger] self.chosen(h, j)
                == self.chosen(shorter, j) by {
                self.choice_is_settled(shorter, h.last(), j);
            }
        }
    }

    pub(crate) proof fn lemma_push_last_chosen(self, h: Seq<Line>, l: Line)
        ensures
            self.last_chosen(h.push(l)) == if self.chosen(h.push(l), h.len() as int) {
                h.len() as int
            } else {
                self.last_chosen(h)
            },
    {
        assert(h.push(l).drop_last() =~= h);
    }

    pub(crate) proof fn lemma_push_selections(self, h: Seq<Line>, l: Line)
        ensures
            self.selections(h.push(l)) == self.selections(h) + if self.selects(l) {
                1nat
            } else {
                0nat
            },
    {
        assert(h.push(l).drop_last() =~= h);
    }

    pub(crate) proof fn lemma_push_chosen(self, h: Seq<Line>, l: Line)
        ensures
            self.chosen(h.push(l), h.len() as int) == (self.selects(l) && self.has_room(
                self.selections(h) as int,
            )),
            self.count(h.push(l)) == self.count(h) + if self.chosen(h.push(l), h.len() as int) {
                1int
            } else {
                0int
            },
            self.has_room(self.selections(h) as int) == self.has_room(self.count(h)),
    {
        self.lemma_push_selections(h, l);
        assert(h.push(l).take(h.len() as int) =~= h);
    }

    pub(crate) proof fn lemma_count_fits(self, h: Seq<Line>)
        ensures
            0 <= self.count(h) <= self.selections(h) <= h.len(),
        decreases h.len(),
    {
        if h.len() > 0 {
            self.lemma_count_fits(h.drop_last());
        }
    }

    /// Line `p - 1` is the last one shown.
    pub open spec fn is_frontier(self, h: Seq<Line>, p: int) -> bool {
        &&& 0 <= p <= h.len()
        &&& p > 0 ==> self.shown(h, p - 1)
        &&& forall|i: int| p <= i ==> !#[trigger] self.shown(h, i)
    }

    /// The first line that is shown anew when line `h.len()` is selected.
    pub open spec fn reach(self, h: Seq<Line>, p: int) -> int {
        if h.len() - self.before > p {
            h.len() - self.before
        } else {
            p
        }
    }

    /// The rows for lines `q` up to `n`, all of them context.
    pub open spec fn context_rows(self, path: Seq<char>, h: Seq<Line>, q: int, n: int) -> Seq<Row> {
        Seq::new((n - q) as nat, |k: int| rows::line_row(path, q + k + 1, h[q + k].text, true))
    }

    /// The rows that one more line adds to a listing.
    pub open spec fn new_rows(self, path: Seq<char>, h: Seq<Line>, l: Line, p: int) -> Seq<Row> {
        let n = h.len() as int;
        let q = self.reach(h, p);
        if self.chosen(h.push(l), n) {
            let parting = if self.has_context() && p > 0 && q > p {
                seq![rows::separator_row(path)]
            } else {
                seq![]
            };
            parting + self.context_rows(path, h, q, n) + seq![rows::line_row(path, n + 1, l.text, false)]
        } else if self.trailing(h) > 0 {
            seq![rows::line_row(path, n + 1, l.text, true)]
        } else {
            seq![]
        }
    }

    /// Which lines are shown after one more.
    proof fn lemma_push_shown(self, h: Seq<Line>, l: Line, i: int)
        requires
            0 <= i < h.len(),
        ensures
            self.shown(h.push(l), i) == (self.shown(h, i) || (self.chosen(h.push(l), h.len() as int)
                && h.len() - i <= self.before)),
    {
        let h2 = h.push(l);
        let n = h.len() as int;
        if self.shown(h2, i) {
            let j = choose|j: int| #[trigger] self.chosen(h2, j) && self.near(i, j);
            if j < n {
                self.choice_is_settled(h, l, j);
                assert(self.chosen(h, j) && self.near(i, j));
            }
        }
        if self.shown(h, i) {
            let j = choose|j: int| #[trigger] self.chosen(h, j) && self.near(i, j);
            self.choice_is_settled(h, l, j);
            assert(self.chosen(h2, j) && self.near(i, j));
        }
        if self.chosen(h2, n) && n - i <= self.before {
            assert(self.near(i, n));
        }
    }

    /// Whether the line just read is shown.
    proof fn lemma_push_shown_last(self, h: Seq<Line>, l: Line)
        requires
            self.mode is Lines,
        ensures
            self.shown(h.push(l), h.len() as int) == (self.chosen(h.push(l), h.len() as int)
                || self.trailing(h) > 0),
    {
        let h2 = h.push(l);
        let n = h.len() as int;
        self.lemma_last_chosen(h);
        if self.chosen(h2, n) {
            assert(self.near(n, n));
        } else {
            let last = self.last_chosen(h);
            if self.trailing(h) > 0 {
                self.choice_is_settled(h, l, last);
                assert(self.chosen(h2, last) && self.near(n, last));
            }
            if self.shown(h2, n) {
                let j = choose|j: int| #[trigger] self.chosen(h2, j) && self.near(n, j);
                self.choice_is_settled(h, l, j);
                assert(j <= last);
            }
        }
    }

    /// No line before the frontier is left out by a line that reaches back
    /// over it.
    proof fn lemma_reach_is_shown(self, h: Seq<Line>, p: int, i: int)
        requires
            self.is_frontier(h, p),
            0 <= i < p,
            h.len() - i <= self.before,
        ensures
            self.shown(h, i),
    {
        let j = choose|j: int| #[trigger] self.chosen(h, j) && self.near(p - 1, j);
        assert(self.chosen(h, j) && self.near(i, j));
    }

    /// Two histories that agree on the first `k` lines have the same rows for
    /// them.
    proof fn lemma_listing_agrees(
        self,
        path: Seq<char>,
        h: Seq<Line>,
        l: Line,
        k: int,
    )
        requires
            0 <= k <= h.len(),
            forall|i: int|
                0 <= i < k ==> self.shown(h.push(l), i) == #[trigger] self.shown(h, i),
        ensures
            self.listing(path, h.push(l), k) == self.listing(path, h, k),
        decreases k,
    {
        if k > 0 {
            self.lemma_listing_agrees(path, h, l, k - 1);
            let h2 = h.push(l);
            let i = k - 1;
            self.choice_is_settled(h, l, i);
            assert(self.shown(h2, i) == self.shown(h, i));
            if self.gap(h, i) {
                let j = choose|j: int| j < i && #[trigger] self.shown(h, j);
                assert(self.shown(h2, j));
            }
            if self.gap(h2, i) {
                let j = choose|j: int| j < i && #[trigger] self.shown(h2, j);
                assert(self.shown(h, j));
            }
            if i > 0 {
                assert(self.shown(h2, i - 1) == self.shown(h, i - 1));
            }
        }
    }

    /// Lines that are not shown add nothing.
    proof fn lemma_listing_skips(self, path: Seq<char>, h: Seq<Line>, lo: int, hi: int)
        requires
            0 <= lo <= hi,
            forall|i: int| lo <= i < hi ==> !#[trigger] self.shown(h, i),
        ensures
            self.listing(path, h, hi) == self.listing(path, h, lo),
        decreases hi - lo,
    {
        if lo < hi {
            self.lemma_listing_skips(path, h, lo, hi - 1);
            assert(!self.shown(h, hi - 1));
            assert(self.listing(path, h, hi) =~= self.listing(path, h, hi - 1));
        }
    }

    /// A run of context lines, with a separator before it if it starts a
    /// group.
    proof fn lemma_listing_run(
        self,
        path: Seq<char>,
        h: Seq<Line>,
        q: int,
        k: int,
        parted: bool,
    )
        requires
            0 <= q < k <= h.len(),
            forall|i: int| q <= i < k ==> #[trigger] self.shown(h, i) && !self.chosen(h, i),
            self.gap(h, q) == parted,
        ensures
            self.listing(path, h, k) == self.listing(path, h, q) + (if parted {
                seq![rows::separator_row(path)]
            } else {
                seq![]
            }) + self.context_rows(path, h, q, k),
        decreases k - q,
    {
        let parting: Seq<Row> = if parted {
            seq![rows::separator_row(path)]
        } else {
            seq![]
        };
        assert(self.shown(h, k - 1) && !self.chosen(h, k - 1));
        if k - 1 > q {
            self.lemma_listing_run(path, h, q, k - 1, parted);
            assert(self.shown(h, k - 2));
            assert(!self.gap(h, k - 1));
            assert(self.context_rows(path, h, q, k) =~= self.context_rows(path, h, q, k - 1).push(
                rows::line_row(path, k, h[k - 1].text, true),
            ));
        } else {
            assert(self.context_rows(path, h, q, k) =~= seq![rows::line_row(path, k, h[k - 1].text, true)]);
        }
        assert(self.listing(path, h, k) =~= self.listing(path, h, q) + parting + self.context_rows(
            path,
            h,
            q,
            k,
        ));
    }

    /// What one more line does to a listing and its frontier.
    #[verifier::spinoff_prover]
    #[verifier::rlimit(40)]
    pub(crate) proof fn lemma_lines_step(self, path: Seq<char>, h: Seq<Line>, l: Line, p: int)
        requires
            self.mode is Lines,
            self.is_frontier(h, p),
        ensures
            self.listing(path, h.push(l), h.len() as int + 1) == self.listing(path, h, h.len() as int)
                + self.new_rows(path, h, l, p),
            self.is_frontier(
                h.push(l),
                if self.chosen(h.push(l), h.len() as int) || self.trailing(h) > 0 {
                    h.len() as int + 1
                } else {
                    p
                },
            ),
            self.trailing(h) > 0 ==> p == h.len(),
    {
        let h2 = h.push(l);
        let n = h.len() as int;
        let q = self.reach(h, p);
        self.lemma_push_shown_last(h, l);
        self.lemma_last_chosen(h);
        assert forall|i: int| 0 <= i < n implies #[trigger] self.shown(h2, i) == (self.shown(h, i)
            || (self.chosen(h2, n) && n - i <= self.before)) by {
            self.lemma_push_shown(h, l, i);
        }
        assert forall|i: int| 0 <= i < p implies self.shown(h2, i) == #[trigger] self.shown(
            h,
            i,
        ) by {
            if self.chosen(h2, n) && n - i <= self.before {
                self.lemma_reach_is_shown(h, p, i);
            }
            assert(self.shown(h2, i) == (self.shown(h, i) || (self.chosen(h2, n) && n - i
                <= self.before)));
        }
        if self.trailing(h) > 0 {
            let last = self.last_chosen(h);
            assert(self.near(n - 1, last));
            assert(self.shown(h, n - 1));
            assert(p == n);
        }
        self.lemma_listing_agrees(path, h, l, p);
        self.lemma_listing_skips(path, h, p, n);
        assert(self.listing(path, h2, n + 1) == self.listing(path, h2, n) + self.shown_rows(
            path,
            h2,
            n,
        ));
        let base = self.listing(path, h, n);
        if self.chosen(h2, n) {
            assert forall|i: int| p <= i < q implies !#[trigger] self.shown(h2, i) by {
                assert(!self.shown(h, i));
            }
            self.lemma_listing_skips(path, h2, p, q);
            assert forall|i: int| q <= i < n implies #[trigger] self.shown(h2, i) && !self.chosen(
                h2,
                i,
            ) by {
                assert(!self.shown(h, i));
                self.choice_is_settled(h, l, i);
                if self.chosen(h, i) {
                    assert(self.near(i, i));
                }
            }
            let parted = self.has_context() && p > 0 && q > p;
            assert(self.gap(h2, q) == parted) by {
                if p > 0 {
                    assert(self.shown(h, p - 1));
                    assert(self.shown(h2, p - 1));
                    if q > p {
                        assert(!self.shown(h2, q - 1));
                    }
                } else {
                    assert forall|j: int| j < q implies !#[trigger] self.shown(h2, j) by {
                        if 0 <= j {
                            assert(!self.shown(h, j));
                        }
                    }
                }
            }
            if q < n {
                self.lemma_listing_run(path, h2, q, n, parted);
                assert(self.shown(h2, n - 1));
                assert(!self.gap(h2, n));
            }
            assert(self.context_rows(path, h2, q, n) =~= self.context_rows(path, h, q, n));
            assert(self.listing(path, h2, n + 1) =~= base + self.new_rows(path, h, l, p));
        } else {
            self.lemma_listing_agrees(path, h, l, n);
            if self.trailing(h) > 0 {
                assert(self.shown(h2, n - 1));
                assert(!self.gap(h2, n));
            }
            assert(self.listing(path, h2, n + 1) =~= base + self.new_rows(path, h, l, p));
        }
        assert(self.is_frontier(
            h2,
            if self.chosen(h2, n) || self.trailing(h) > 0 {
                n + 1
            } else {
                p
            },
        )) by {
            if p > 0 {
                assert(self.shown(h, p - 1));
                assert(self.shown(h2, p - 1));
            }
            assert forall|i: int| p <= i && !(self.chosen(h2, n) || self.trailing(h) > 0) implies
                !#[trigger] self.shown(h2, i) by {
                if i < n {
                    assert(!self.shown(h, i));
                }
            }
        }
    }

    /// The frontier of an empty history.
    pub(crate) proof fn lemma_start(self)
        ensures
            self.is_frontier(Seq::empty(), 0),
            self.last_chosen(Seq::empty()) == -1,
            self.trailing(Seq::empty()) == 0,
            self.count(Seq::empty()) == 0,
    {
    }

    /// Some line is the last one shown, or none is.
    proof fn lemma_frontier(self, h: Seq<Line>, k: int) -> (p: int)
        requires
            0 <= k <= h.len(),
            forall|i: int| k <= i ==> !#[trigger] self.shown(h, i),
        ensures
            self.is_frontier(h, p),
        decreases k,
    {
        if k == 0 || self.shown(h, k - 1) {
            k
        } else {
            self.lemma_frontier(h, k - 1)
        }
    }

    proof fn lemma_finished_step(self, path: Seq<char>, h: Seq<Line>, l: Line)
        requires
            self.finished(h),
        ensures
            self.finished(h.push(l)),
            self.body(path, h.push(l)) == self.body(path, h),
            self.count(h.push(l)) == self.count(h),
    {
        self.lemma_push_chosen(h, l);
        self.lemma_push_selections(h, l);
        self.lemma_push_last_chosen(h, l);
        self.lemma_last_chosen(h);
        assert(h.push(l).drop_last() =~= h);
        if self.mode is Lines {
            let p = self.lemma_frontier(h, h.len() as int);
            self.lemma_lines_step(path, h, l, p);
            assert(self.body(path, h.push(l)) =~= self.body(path, h));
        }
    }

    /// Once a search is finished, reading on would change nothing: whatever
    /// lines were to follow, the report is the same. So -q, -l, -L and -m may
    /// stop reading as early as they do.
    pub proof fn stopping_loses_nothing(
        self,
        path: Seq<char>,
        h: Seq<Line>,
        more: Seq<Line>,
        failed: bool,
    )
        requires
            self.finished(h),
        ensures
            self.finished(h + more),
            self.report(path, h + more, failed) == self.report(path, h, failed),
            self.count(h + more) == self.count(h),
        decreases more.len(),
    {
        if more.len() == 0 {
            assert(h + more =~= h);
        } else {
            self.stopping_loses_nothing(path, h, more.drop_last(), failed);
            self.lemma_finished_step(path, h + more.drop_last(), more.last());
            assert(h + more =~= (h + more.drop_last()).push(more.last()));
        }
    }

    /// What is reported while reading is never taken back: the report of a
    /// longer file starts with the rows of its first lines.
    pub proof fn rows_are_never_taken_back(self, path: Seq<char>, h: Seq<Line>, more: Seq<Line>)
        ensures
            self.body(path, h).is_prefix_of(self.body(path, h + more)),
        decreases more.len(),
    {
        if more.len() == 0 {
            assert(h + more =~= h);
        } else {
            let mid = h + more.drop_last();
            let l = more.last();
            self.rows_are_never_taken_back(path, h, more.drop_last());
            assert(h + more =~= mid.push(l));
            assert(mid.push(l).drop_last() =~= mid);
            self.lemma_push_chosen(mid, l);
            if self.mode is Lines {
                let p = self.lemma_frontier(mid, mid.len() as int);
                self.lemma_lines_step(path, mid, l, p);
            }
            assert(self.body(path, mid).is_prefix_of(self.body(path, mid.push(l))));
        }
    }

    /// -m: never more lines are selected than the limit allows, and with -c
    /// the reported number is that of the selected lines.
    pub proof fn limit_is_kept(self, path: Seq<char>, h: Seq<Line>, failed: bool)
        ensures
            self.max_count matches Some(m) ==> m > 0 ==> self.count(h) <= m,
            self.count(h) <= self.selections(h),
            self.count_at_end ==> self.report(path, h, failed).contains(
                rows::count_row(path, self.count(h)),
            ),
    {
        if self.count_at_end {
            let report = self.report(path, h, failed);
            assert(report[self.body(path, h).len() as int] == rows::count_row(path, self.count(h)));
        }
    }

    /// Every row is for a line that is shown, or a separator.
    proof fn lemma_listing_sound(self, path: Seq<char>, h: Seq<Line>, k: int, at: int) -> (i: int)
        requires
            0 <= k <= h.len(),
            0 <= at < self.listing(path, h, k).len(),
            !self.listing(path, h, k)[at].separator,
        ensures
            0 <= i < k,
            self.shown(h, i),
            self.listing(path, h, k)[at] == rows::line_row(
                path,
                i + 1,
                h[i].text,
                !self.chosen(h, i),
            ),
        decreases k,
    {
        if at < self.listing(path, h, k - 1).len() {
            self.lemma_listing_sound(path, h, k - 1, at)
        } else {
            k - 1
        }
    }

    /// The line of a row that is not a separator is shown, and the row is
    /// marked as context exactly if the line is not selected.
    pub proof fn listed_lines_are_shown(self, path: Seq<char>, h: Seq<Line>, at: int) -> (i: int)
        requires
            self.mode is Lines,
            0 <= at < self.body(path, h).len(),
            !self.body(path, h)[at].separator,
        ensures
            self.shown(h, i),
            self.body(path, h)[at] == rows::line_row(path, i + 1, h[i].text, !self.chosen(h, i)),
    {
        self.lemma_listing_sound(path, h, h.len() as int, at)
    }

    proof fn lemma_listing_complete(self, path: Seq<char>, h: Seq<Line>, k: int, i: int)
        requires
            0 <= i < k <= h.len(),
            self.shown(h, i),
        ensures
            self.listing(path, h, k).contains(
                rows::line_row(path, i + 1, h[i].text, !self.chosen(h, i)),
            ),
        decreases k,
    {
        let row = rows::line_row(path, i + 1, h[i].text, !self.chosen(h, i));
        let before = self.listing(path, h, k - 1);
        let all = self.listing(path, h, k);
        if i < k - 1 {
            self.lemma_listing_complete(path, h, k - 1, i);
            let at = choose|at: int| 0 <= at < before.len() && before[at] == row;
            assert(all[at] == row);
        } else {
            let own = self.shown_rows(path, h, i);
            assert(own[own.len() - 1] == row);
            assert(all[before.len() + own.len() - 1] == row);
        }
    }

    /// Every selected line and every line of its context has a row.
    pub proof fn shown_lines_are_listed(self, path: Seq<char>, h: Seq<Line>, i: int)
        requires
            self.mode is Lines,
            self.shown(h, i),
        ensures
            self.body(path, h).contains(
                rows::line_row(path, i + 1, h[i].text, !self.chosen(h, i)),
            ),
    {
        self.lemma_listing_complete(path, h, h.len() as int, i);
    }

    proof fn lemma_listing_printable(self, path: Seq<char>, h: Seq<Line>, k: int)
        ensures
            forall|at: int|
                0 <= at < self.listing(path, h, k).len() ==> sanitize::is_printable(
                    #[trigger] self.listing(path, h, k)[at].text,
                ),
        decreases k,
    {
        if k > 0 {
            self.lemma_listing_printable(path, h, k - 1);
            sanitize::sanitized_is_printable(h[k - 1].text);
            let before = self.listing(path, h, k - 1);
            assert forall|at: int| 0 <= at < self.listing(path, h, k).len() implies
                sanitize::is_printable(#[trigger] self.listing(path, h, k)[at].text) by {
                if at < before.len() {
                    assert(self.listing(path, h, k)[at] == before[at]);
                }
            }
        }
    }

    proof fn lemma_pieces_printable(self, path: Seq<char>, h: Seq<Line>)
        ensures
            forall|at: int|
                0 <= at < self.pieces(path, h).len() ==> sanitize::is_printable(
                    #[trigger] self.pieces(path, h)[at].text,
                ),
        decreases h.len(),
    {
        if h.len() > 0 {
            self.lemma_pieces_printable(path, h.drop_last());
            let before = self.pieces(path, h.drop_last());
            assert forall|at: int| 0 <= at < self.pieces(path, h).len() implies
                sanitize::is_printable(#[trigger] self.pieces(path, h)[at].text) by {
                if at < before.len() {
                    assert(self.pieces(path, h)[at] == before[at]);
                } else {
                    let l = h.last();
                    let hit = l.hits[at - before.len()];
                    sanitize::sanitized_is_printable(
                        text::byte_slice(l.text, hit.0 as int, hit.1 as int),
                    );
                }
            }
        }
    }

    /// No row ever carries a control character, whatever the file holds.
    pub proof fn rows_are_printable(self, path: Seq<char>, h: Seq<Line>, failed: bool)
        ensures
            forall|at: int|
                0 <= at < self.report(path, h, failed).len() ==> sanitize::is_printable(
                    #[trigger] self.report(path, h, failed)[at].text,
                ),
    {
        self.lemma_listing_printable(path, h, h.len() as int);
        self.lemma_pieces_printable(path, h);
        let body = self.body(path, h);
        assert forall|at: int| 0 <= at < self.report(path, h, failed).len() implies
            sanitize::is_printable(#[trigger] self.report(path, h, failed)[at].text) by {
            if at < body.len() {
                assert(self.report(path, h, failed)[at] == body[at]);
            }
        }
    }
}

impl SearchConfig {
    /// -q: nothing is ever reported for the lines of a file, whatever other
    /// flags ask for.
    pub proof fn quiet_reports_nothing(self, path: Seq<char>, h: Seq<Line>, failed: bool)
        requires
            self.quiet,
        ensures
            self.spec_rules().report(path, h, failed).len() == 0,
    {
    }

    /// -L reports a file exactly if it was read without failure and no line of
    /// it is selected; -l reports it exactly if one is.
    pub proof fn listing_modes_are_opposites(self, path: Seq<char>, h: Seq<Line>, failed: bool)
        requires
            !self.quiet,
            !self.count_per_file,
            self.files_with_matches != self.files_without_match,
        ensures
            self.spec_rules().report(path, h, failed) == (if self.files_with_matches == (
            self.spec_rules().selections(h) > 0) && (self.files_with_matches || !failed) {
                seq![rows::name_row(path)]
            } else {
                seq![]
            }),
    {
    }
}

/// Rows as they are of a file with another name.
pub open spec fn renamed(rows: Seq<Row>, path: Seq<char>) -> Seq<Row> {
    Seq::new(rows.len(), |i: int| Row { path, ..rows[i] })
}

impl LineRules {
    proof fn lemma_listing_renamed(self, a: Seq<char>, b: Seq<char>, h: Seq<Line>, k: int)
        ensures
            self.listing(b, h, k) == renamed(self.listing(a, h, k), b),
        decreases k,
    {
        if k > 0 {
            self.lemma_listing_renamed(a, b, h, k - 1);
            assert(self.shown_rows(b, h, k - 1) =~= renamed(self.shown_rows(a, h, k - 1), b));
        }
        assert(self.listing(b, h, k) =~= renamed(self.listing(a, h, k), b));
    }

    proof fn lemma_pieces_renamed(self, a: Seq<char>, b: Seq<char>, h: Seq<Line>)
        ensures
            self.pieces(b, h) == renamed(self.pieces(a, h), b),
        decreases h.len(),
    {
        if h.len() > 0 {
            self.lemma_pieces_renamed(a, b, h.drop_last());
            let n = h.len() as int;
            assert(self.piece_rows(b, n, h.last()) =~= renamed(
                self.piece_rows(a, n, h.last()),
                b,
            ));
        }
        assert(self.pieces(b, h) =~= renamed(self.pieces(a, h), b));
    }

    /// What a file is called changes nothing in its report but the name.
    pub proof fn name_is_all_that_differs(
        self,
        a: Seq<char>,
        b: Seq<char>,
        h: Seq<Line>,
        failed: bool,
    )
        ensures
            self.report(b, h, failed) == renamed(self.report(a, h, failed), b),
    {
        self.lemma_listing_renamed(a, b, h, h.len() as int);
        self.lemma_pieces_renamed(a, b, h);
        assert(self.body(b, h) =~= renamed(self.body(a, h), b));
        assert(self.tail(b, h, failed) =~= renamed(self.tail(a, h, failed), b));
        assert(self.report(b, h, failed) =~= renamed(self.report(a, h, failed), b));
    }
}

} // verus!
