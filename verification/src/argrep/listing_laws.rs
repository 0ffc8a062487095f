//! What the flags of a search make of the lines of a file: which rows there
//! are, in what order, and what they hold.

use crate::argrep::config::SearchConfig;
use crate::argrep::matcher;
use crate::argrep::rows;
use crate::argrep::rows::{Line, LineRules, Mode, Row};
use crate::argrep::sanitize;
use crate::runs;
use crate::text;
use crate::text_laws;
use vstd::prelude::*;
use vstd::utf8::*;

verus! {

/// A line that is selected, as a number: one with a match, or under -v one
/// without.
pub open spec fn selected(invert: bool) -> spec_fn(Line) -> int {
    |l: Line|
        if (l.hits.len() == 0) == invert {
            1int
        } else {
            0int
        }
}

impl LineRules {
    pub(crate) proof fn lemma_selections(self, h: Seq<Line>)
        ensures
            self.selections(h) == runs::amount(h, selected(self.invert)),
        decreases h.len(),
    {
        if h.len() > 0 {
            self.lemma_selections(h.drop_last());
        }
    }

    /// A line is selected if it has a match, or under -v if it has none, and as
    /// long as fewer lines were selected before it than -m allows.
    pub proof fn lines_are_selected_by_their_matches(self, h: Seq<Line>, i: int)
        requires
            0 <= i < h.len(),
            self.mode is Lines || self.mode is Pieces || self.mode is Count,
        ensures
            self.chosen(h, i) <==> {
                &&& (h[i].hits.len() > 0) != self.invert
                &&& self.max_count matches Some(m) ==> m >= 1 ==> runs::amount(
                    h.take(i),
                    selected(self.invert),
                ) < m
                &&& self.max_count == Some(0usize) ==> runs::amount(
                    h.take(i),
                    selected(self.invert),
                ) == 0
            },
            self.max_count is None ==> self.count(h) == runs::amount(h, selected(self.invert)),
            self.max_count matches Some(m) ==> m >= 1 ==> self.count(h) == if runs::amount(
                h,
                selected(self.invert),
            ) < m {
                runs::amount(h, selected(self.invert))
            } else {
                m as int
            },
    {
        self.lemma_selections(h.take(i));
        self.lemma_selections(h);
    }

    /// The lines of a listing are those that are selected and those close to
    /// one, no further before it than -B and no further behind it than -A. Each
    /// comes with its number and its own text, and is marked as context unless
    /// it is selected itself.
    pub proof fn listed_lines(self, path: Seq<char>, h: Seq<Line>, i: int)
        requires
            self.mode is Lines,
            0 <= i < h.len(),
        ensures
            (exists|k: int|
                0 <= k < self.body(path, h).len() && (#[trigger] self.body(path, h)[k]).num == i + 1
                    && !self.body(path, h)[k].separator) <==> exists|j: int| #[trigger]
                self.chosen(h, j) && j - self.before <= i <= j + self.after,
            forall|k: int|
                0 <= k < self.body(path, h).len() && !(#[trigger] self.body(path, h)[k]).separator
                    ==> {
                    let row = self.body(path, h)[k];
                    &&& 1 <= row.num <= h.len()
                    &&& row.path == path
                    &&& row.text == sanitize::sanitized(h[row.num - 1].text)
                    &&& row.context == !self.chosen(h, row.num - 1)
                    &&& row.count is None
                },
    {
        let body = self.body(path, h);
        assert forall|k: int| 0 <= k < body.len() && !(#[trigger] body[k]).separator implies ({
            let row = body[k];
            &&& 1 <= row.num <= h.len()
            &&& row.path == path
            &&& row.text == sanitize::sanitized(h[row.num - 1].text)
            &&& row.context == !self.chosen(h, row.num - 1)
            &&& row.count is None
        }) by {
            let j = self.listed_lines_are_shown(path, h, k);
        }
        if exists|k: int|
            0 <= k < body.len() && (#[trigger] body[k]).num == i + 1 && !body[k].separator {
            let k = choose|k: int|
                0 <= k < body.len() && (#[trigger] body[k]).num == i + 1 && !body[k].separator;
            let j = self.listed_lines_are_shown(path, h, k);
            assert(self.shown(h, i));
            let c = choose|c: int| #[trigger] self.chosen(h, c) && self.near(i, c);
            assert(self.chosen(h, c) && c - self.before <= i <= c + self.after);
        }
        if exists|j: int| #[trigger] self.chosen(h, j) && j - self.before <= i <= j + self.after {
            let j = choose|j: int| #[trigger]
                self.chosen(h, j) && j - self.before <= i <= j + self.after;
            assert(self.near(i, j));
            assert(self.shown(h, i));
            self.shown_lines_are_listed(path, h, i);
            let row = rows::line_row(path, i + 1, h[i].text, !self.chosen(h, i));
            let k = body.index_of(row);
            assert(body[k].num == i + 1 && !body[k].separator);
        }
    }

    proof fn lemma_listing_order(self, path: Seq<char>, h: Seq<Line>, k: int)
        requires
            0 <= k <= h.len(),
        ensures
            ({
                let all = self.listing(path, h, k);
                &&& all.len() > 0 ==> !all[0].separator && !all.last().separator && all.last().num
                    <= k
                &&& all.len() > 0 <==> exists|j: int| j < k && #[trigger] self.shown(h, j)
                &&& k > 0 && self.shown(h, k - 1) ==> all.len() > 0 && all.last().num == k
                &&& all.len() > 0 && all.last().num == k ==> self.shown(h, k - 1)
                &&& self.is_ordered(all)
            }),
        decreases k,
    {
        let all = self.listing(path, h, k);
        if k > 0 {
            self.lemma_listing_order(path, h, k - 1);
            let before = self.listing(path, h, k - 1);
            let own = self.shown_rows(path, h, k - 1);
            let i = k - 1;
            assert(all == before + own);
            if self.shown(h, i) {
                assert(own.last() == rows::line_row(path, k, h[i].text, !self.chosen(h, i)));
                assert(all.last() == own.last());
                if before.len() > 0 {
                    assert(all[0] == before[0]);
                    assert(all[before.len() - 1] == before.last());
                } else {
                    assert(!self.gap(h, i)) by {
                        if self.gap(h, i) {
                            let j = choose|j: int| j < i && #[trigger] self.shown(h, j);
                            assert(self.shown(h, j));
                        }
                    }
                }
                assert forall|a: int| 0 <= a < all.len() - 1 implies self.follows(
                    #[trigger] all[a],
                    all,
                    a,
                ) by {
                    if a < before.len() - 1 {
                        assert(self.follows(before[a], before, a));
                        assert(all[a] == before[a] && all[a + 1] == before[a + 1]);
                        if before[a + 1].separator {
                            assert(all[a + 2] == before[a + 2]);
                        }
                    } else if a == before.len() - 1 {
                        assert(all[a] == before.last());
                        assert(before.last().num <= i);
                        if self.gap(h, i) {
                            assert(all[a + 1] == rows::separator_row(path));
                            assert(all[a + 2] == own.last());
                            assert(before.last().num != i);
                        } else {
                            assert(all[a + 1] == own.last());
                            if self.has_context() {
                                let j = choose|j: int| j < i && #[trigger] self.shown(h, j);
                                assert(self.shown(h, i - 1));
                            }
                        }
                    } else {
                        assert(self.gap(h, i));
                        assert(all[a] == rows::separator_row(path));
                    }
                }
            } else {
                assert(all =~= before);
                if exists|j: int| j < k && #[trigger] self.shown(h, j) {
                    let j = choose|j: int| j < k && #[trigger] self.shown(h, j);
                    assert(j < i);
                }
            }
        } else {
            assert forall|j: int| j < k implies !#[trigger] self.shown(h, j) by {}
        }
    }

    /// What comes behind row `a`: a line with a larger number, the next one if
    /// context is asked for; or a separator, and then a line that is not the
    /// next one.
    pub open spec fn follows(self, row: Row, all: Seq<Row>, a: int) -> bool {
        let next = all[a + 1];
        if row.separator {
            !next.separator
        } else if next.separator {
            &&& self.before > 0 || self.after > 0
            &&& a + 2 < all.len()
            &&& !all[a + 2].separator
            &&& all[a + 2].num > row.num + 1
        } else {
            &&& next.num > row.num
            &&& self.before > 0 || self.after > 0 ==> next.num == row.num + 1
        }
    }

    /// Every row is followed as it should be.
    pub open spec fn is_ordered(self, all: Seq<Row>) -> bool {
        forall|a: int| 0 <= a < all.len() - 1 ==> self.follows(#[trigger] all[a], all, a)
    }

    /// The rows of a listing come in the order of the lines, none twice. Where
    /// context is asked for, a separator stands wherever lines are left out
    /// between two that are listed, and nowhere else; otherwise there is none.
    pub proof fn listings_are_ordered(self, path: Seq<char>, h: Seq<Line>, a: int)
        requires
            self.mode is Lines,
            0 <= a < self.body(path, h).len() - 1,
        ensures
            ({
                let all = self.body(path, h);
                let context = self.before > 0 || self.after > 0;
                &&& !all[0].separator && !all.last().separator
                &&& all[a].separator ==> !all[a + 1].separator && context
                &&& !all[a].separator && !all[a + 1].separator ==> all[a].num < all[a + 1].num && (
                context ==> all[a + 1].num == all[a].num + 1)
                &&& !all[a].separator && all[a + 1].separator ==> context && a + 2 < all.len()
                    && all[a].num + 1 < all[a + 2].num
            }),
    {
        self.lemma_listing_order(path, h, h.len() as int);
        let all = self.body(path, h);
        assert(self.follows(all[a], all, a));
        if a > 0 {
            assert(self.follows(all[a - 1], all, a - 1));
        }
    }

    proof fn lemma_pieces(self, path: Seq<char>, h: Seq<Line>) -> (places: Seq<(int, int)>)
        ensures
            places.len() == self.pieces(path, h).len(),
            forall|k: int|
                0 <= k < places.len() ==> {
                    let (i, j) = #[trigger] places[k];
                    let row = self.pieces(path, h)[k];
                    &&& 0 <= i < h.len() && 0 <= j < h[i].hits.len()
                    &&& self.chosen(h, i)
                    &&& row == rows::line_row(
                        path,
                        i + 1,
                        text::byte_slice(
                            h[i].text,
                            h[i].hits[j].0 as int,
                            h[i].hits[j].1 as int,
                        ),
                        false,
                    )
                },
            forall|a: int, b: int|
                0 <= a < b < places.len() ==> (#[trigger] places[a]).0 < (#[trigger] places[b]).0
                    || (places[a].0 == places[b].0 && places[a].1 < places[b].1),
            forall|i: int, j: int|
                0 <= i < h.len() && 0 <= j < h[i].hits.len() && self.chosen(h, i)
                    ==> #[trigger] places.contains((i, j)),
        decreases h.len(),
    {
        if h.len() == 0 {
            seq![]
        } else {
            let n = h.len() - 1;
            let fewer = h.drop_last();
            let before = self.lemma_pieces(path, fewer);
            assert(fewer.push(h.last()) =~= h);
            assert forall|i: int| i < n implies #[trigger] self.chosen(h, i) == self.chosen(
                fewer,
                i,
            ) by {
                self.choice_is_settled(fewer, h.last(), i);
            }
            let l = h.last();
            let own = if self.chosen(h, n) {
                Seq::new(l.hits.len(), |j: int| (n, j))
            } else {
                seq![]
            };
            let places = before + own;
            let all = self.pieces(path, h);
            assert forall|k: int| 0 <= k < places.len() implies ({
                let (i, j) = #[trigger] places[k];
                let row = all[k];
                &&& 0 <= i < h.len() && 0 <= j < h[i].hits.len()
                &&& self.chosen(h, i)
                &&& row == rows::line_row(
                    path,
                    i + 1,
                    text::byte_slice(h[i].text, h[i].hits[j].0 as int, h[i].hits[j].1 as int),
                    false,
                )
            }) by {
                if k < before.len() {
                    assert(places[k] == before[k]);
                    let (i, j) = before[k];
                    assert(fewer[i] == h[i]);
                    assert(all[k] == self.pieces(path, fewer)[k]);
                } else {
                    assert(places[k] == own[k - before.len()]);
                }
            }
            assert forall|i: int, j: int|
                0 <= i < h.len() && 0 <= j < h[i].hits.len() && self.chosen(
                    h,
                    i,
                ) implies #[trigger] places.contains((i, j)) by {
                if i < n {
                    assert(fewer[i] == h[i]);
                    assert(before.contains((i, j)));
                    let k = before.index_of((i, j));
                    assert(places[k] == (i, j));
                } else {
                    assert(places[before.len() + j] == (i, j));
                }
            }
            assert forall|a: int, b: int| 0 <= a < b < places.len() implies (
            #[trigger] places[a]).0 < (#[trigger] places[b]).0 || (places[a].0 == places[b].0
                && places[a].1 < places[b].1) by {
                if a < before.len() {
                    assert(places[a] == before[a]);
                    if b < before.len() {
                        assert(places[b] == before[b]);
                    }
                }
            }
            places
        }
    }

    /// -o: there is one row for each match of each selected line, in the order
    /// in which they stand in the file, and each holds the part of its line that
    /// its own match covers, made printable. So matches at different places give
    /// rows with what stands at those places.
    pub proof fn pieces_are_what_the_matches_cover(self, path: Seq<char>, h: Seq<Line>) -> (places:
        Seq<(int, int)>)
        requires
            self.mode is Pieces,
            forall|i: int|
                0 <= i < h.len() ==> matcher::spans_fit((#[trigger] h[i]).hits, h[i].text),
        ensures
            places.len() == self.body(path, h).len(),
            forall|k: int|
                0 <= k < places.len() ==> {
                    let (i, j) = #[trigger] places[k];
                    let row = self.body(path, h)[k];
                    let covered = encode_utf8(h[i].text).subrange(
                        h[i].hits[j].0 as int,
                        h[i].hits[j].1 as int,
                    );
                    &&& 0 <= i < h.len() && 0 <= j < h[i].hits.len()
                    &&& self.chosen(h, i)
                    &&& row.num == i + 1
                    &&& row.path == path
                    &&& !row.context && !row.separator && row.count is None
                    &&& row.text == sanitize::sanitized(decode_utf8(covered))
                    &&& sanitize::sanitized(decode_utf8(covered)) == decode_utf8(covered)
                        ==> encode_utf8(row.text) == covered
                },
            forall|a: int, b: int|
                0 <= a < b < places.len() ==> (#[trigger] places[a]).0 < (#[trigger] places[b]).0
                    || (places[a].0 == places[b].0 && places[a].1 < places[b].1),
            forall|i: int, j: int|
                0 <= i < h.len() && 0 <= j < h[i].hits.len() && self.chosen(h, i)
                    ==> #[trigger] places.contains((i, j)),
    {
        let places = self.lemma_pieces(path, h);
        assert forall|k: int| 0 <= k < places.len() implies ({
            let (i, j) = #[trigger] places[k];
            let row = self.body(path, h)[k];
            let covered = encode_utf8(h[i].text).subrange(
                h[i].hits[j].0 as int,
                h[i].hits[j].1 as int,
            );
            &&& row.text == sanitize::sanitized(decode_utf8(covered))
            &&& sanitize::sanitized(decode_utf8(covered)) == decode_utf8(covered) ==> encode_utf8(
                row.text,
            ) == covered
        }) by {
            let (i, j) = places[k];
            assert(matcher::spans_fit(h[i].hits, h[i].text));
            let hit = h[i].hits[j];
            text_laws::slices_hold_the_bytes(h[i].text, hit.0 as int, hit.1 as int);
        }
        places
    }

    /// A line put together again: what stands before each of its first `n`
    /// matches, made printable, and the text of the row of that match, in turn.
    pub open spec fn rejoined(self, l: Line, found: Seq<Row>, n: int) -> Seq<char>
        decreases n,
    {
        if n <= 0 {
            seq![]
        } else {
            let from = if n == 1 {
                0
            } else {
                l.hits[n - 2].1 as int
            };
            self.rejoined(l, found, n - 1) + sanitize::sanitized(
                text::byte_slice(l.text, from, l.hits[n - 1].0 as int),
            ) + found[n - 1].text
        }
    }

    proof fn lemma_rejoined(self, path: Seq<char>, num: int, l: Line, n: int)
        requires
            matcher::spans_fit(l.hits, l.text),
            0 <= n <= l.hits.len(),
        ensures
            self.rejoined(l, self.piece_rows(path, num, l), n) == sanitize::sanitized(
                text::byte_slice(
                    l.text,
                    0,
                    if n == 0 {
                        0
                    } else {
                        l.hits[n - 1].1 as int
                    },
                ),
            ),
            n > 0 ==> is_char_boundary(encode_utf8(l.text), l.hits[n - 1].1 as int),
        decreases n,
    {
        let bytes = encode_utf8(l.text);
        encode_utf8_valid_utf8(l.text);
        is_char_boundary_start_end_of_seq(bytes);
        let found = self.piece_rows(path, num, l);
        if n == 0 {
            text_laws::slices_hold_the_bytes(l.text, 0, 0);
            assert(text::byte_slice(l.text, 0, 0) =~= Seq::<char>::empty());
            assert(sanitize::sanitized(Seq::empty()) =~= Seq::<char>::empty());
        } else {
            self.lemma_rejoined(path, num, l, n - 1);
            let (lo, hi) = l.hits[n - 1];
            assert(is_char_boundary(bytes, lo as int) && is_char_boundary(bytes, hi as int));
            let from = if n == 1 {
                0
            } else {
                l.hits[n - 2].1 as int
            };
            if n > 1 {
                assert(l.hits[n - 2].1 <= l.hits[n - 1].0);
            }
            let (a, b, c) = (
                text::byte_slice(l.text, 0, from),
                text::byte_slice(l.text, from, lo as int),
                text::byte_slice(l.text, lo as int, hi as int),
            );
            text_laws::slices_that_touch_join(l.text, 0, from, lo as int);
            text_laws::slices_that_touch_join(l.text, 0, lo as int, hi as int);
            sanitize::texts_are_sanitized_in_parts(a, b);
            sanitize::texts_are_sanitized_in_parts(a + b, c);
            assert(found[n - 1].text == sanitize::sanitized(c));
        }
    }

    /// -o loses nothing of a line but what stands between its matches: the row
    /// texts and the gaps, in turn, and what stands behind the last match, are
    /// the printable line.
    pub proof fn pieces_and_gaps_make_the_line(self, path: Seq<char>, num: int, l: Line)
        requires
            matcher::spans_fit(l.hits, l.text),
        ensures
            ({
                let n = l.hits.len() as int;
                let end = if n == 0 {
                    0
                } else {
                    l.hits[n - 1].1 as int
                };
                &&& self.piece_rows(path, num, l).len() == n
                &&& self.rejoined(l, self.piece_rows(path, num, l), n) + sanitize::sanitized(
                    text::byte_slice(l.text, end, encode_utf8(l.text).len() as int),
                ) == sanitize::sanitized(l.text)
            }),
    {
        let n = l.hits.len() as int;
        let bytes = encode_utf8(l.text);
        encode_utf8_valid_utf8(l.text);
        is_char_boundary_start_end_of_seq(bytes);
        let end = if n == 0 {
            0
        } else {
            l.hits[n - 1].1 as int
        };
        self.lemma_rejoined(path, num, l, n);
        text_laws::slices_that_touch_join(l.text, 0, end, bytes.len() as int);
        text_laws::slices_hold_the_bytes(l.text, 0, bytes.len() as int);
        sanitize::texts_are_sanitized_in_parts(
            text::byte_slice(l.text, 0, end),
            text::byte_slice(l.text, end, bytes.len() as int),
        );
    }
}

/// A row that is for no line: the name of a file, or its count.
pub open spec fn is_plain_row(row: Row, path: Seq<char>, count: Option<int>) -> bool {
    &&& row.path == path
    &&& row.num == 0
    &&& row.text.len() == 0
    &&& row.count == count
    &&& !row.context
    &&& !row.separator
}

impl SearchConfig {
    /// -q reports nothing. -l reports a file by its name if a line of it is
    /// selected, and -L if it was read to its end and none is. -c reports the
    /// number of selected lines, whatever it is. Each of them comes before the
    /// listing of lines or matches, of which there is then none.
    pub proof fn summaries_replace_the_listing(
        self,
        path: Seq<char>,
        h: Seq<Line>,
        failed: bool,
    )
        requires
            !(self.files_with_matches && self.files_without_match),
            !(self.files_with_matches && self.count_per_file),
            !(self.files_without_match && self.count_per_file),
        ensures
            ({
                let report = self.spec_rules().report(path, h, failed);
                let n = runs::amount(h, selected(self.invert));
                &&& self.quiet ==> report.len() == 0
                &&& !self.quiet && self.files_with_matches ==> report.len() == if n > 0 {
                    1int
                } else {
                    0int
                }
                &&& !self.quiet && self.files_without_match ==> report.len() == if n == 0
                    && !failed {
                    1int
                } else {
                    0int
                }
                &&& !self.quiet && (self.files_with_matches || self.files_without_match)
                    && report.len() > 0 ==> is_plain_row(report[0], path, None)
                &&& !self.quiet && self.count_per_file ==> report.len() == 1 && is_plain_row(
                    report[0],
                    path,
                    Some(
                        if self.max_count is None || n < self.max_count->0 {
                            n
                        } else if self.max_count == Some(0usize) {
                            if n < 1 {
                                n
                            } else {
                                1
                            }
                        } else {
                            self.max_count->0 as int
                        },
                    ),
                )
            }),
    {
        let rules = self.spec_rules();
        rules.lemma_selections(h);
        lemma_amount_positive(h, self.invert);
        assert(rules.body(path, h) + rules.tail(path, h, failed) =~= rules.report(path, h, failed));
    }

    /// Without -q, -l, -L and -c the lines of a file are listed, with -o the
    /// matches in them, and nothing more is reported.
    pub proof fn lines_are_listed_by_default(self, path: Seq<char>, h: Seq<Line>, failed: bool)
        requires
            !self.quiet,
            !self.files_with_matches,
            !self.files_without_match,
            !self.count_per_file,
        ensures
            ({
                let rules = self.spec_rules();
                &&& rules.report(path, h, failed) == rules.body(path, h)
                &&& rules.mode is Pieces <==> self.only_matching
                &&& rules.mode is Lines <==> !self.only_matching
                &&& rules.before == self.before_context
                &&& rules.after == self.after_context
                &&& rules.invert == self.invert
                &&& rules.max_count == self.max_count
            }),
    {
        let rules = self.spec_rules();
        assert(rules.report(path, h, failed) =~= rules.body(path, h));
    }
}

proof fn lemma_amount_positive(h: Seq<Line>, invert: bool)
    ensures
        0 <= runs::amount(h, selected(invert)) <= h.len(),
    decreases h.len(),
{
    if h.len() > 0 {
        lemma_amount_positive(h.drop_last(), invert);
    }
}

/// -v turns the selection round: of the lines of a file, each is selected
/// either with it or without it.
pub proof fn inverting_turns_the_selection_round(h: Seq<Line>)
    ensures
        runs::amount(h, selected(true)) + runs::amount(h, selected(false)) == h.len(),
    decreases h.len(),
{
    if h.len() > 0 {
        inverting_turns_the_selection_round(h.drop_last());
    }
}

} // verus!
