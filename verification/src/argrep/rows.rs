//! What a search reports for one file: the rows, stated over the lines read.

use crate::argrep::sanitize;
use crate::text;
use vstd::prelude::*;

verus! {

/// What is printed for a file. Where several flags ask for different things,
/// the earlier variant wins.
#[derive(Debug, Clone, Copy, PartialEq, Eq, Structural)]
pub enum Mode {
    /// -q: nothing at all.
    Quiet,
    /// -l: the file's name, if a line is selected.
    ListMatching,
    /// -L: the file's name, if no line is selected.
    ListMissing,
    /// -c: the number of selected lines.
    Count,
    /// -o: the matches of each selected line.
    Pieces,
    /// The selected lines, with their context.
    Lines,
}

/// The part of a configuration that decides what is reported for the lines of
/// a file.
#[derive(Debug, Clone, Copy)]
pub struct LineRules {
    pub mode: Mode,
    /// -v: lines without a match are selected.
    pub invert: bool,
    /// -B: how many lines are shown before a selected one.
    pub before: usize,
    /// -A: how many lines are shown after a selected one.
    pub after: usize,
    /// -m: how many lines are selected at most.
    pub max_count: Option<usize>,
    /// The number of selected lines is reported at the end.
    pub count_at_end: bool,
    /// The file is reported at the end if no line was selected.
    pub missing_at_end: bool,
}

/// One row of a report.
pub ghost struct Row {
    pub path: Seq<char>,
    /// The line's number, counted from one; zero where the row is for no line.
    pub num: int,
    pub text: Seq<char>,
    pub count: Option<int>,
    pub context: bool,
    pub separator: bool,
}

/// One line of a file: its text without the line terminator, and the matches
/// in it as pairs of byte offsets.
pub ghost struct Line {
    pub text: Seq<char>,
    pub hits: Seq<(usize, usize)>,
}

/// The row that names a file.
pub open spec fn name_row(path: Seq<char>) -> Row {
    Row { path, num: 0, text: seq![], count: None, context: false, separator: false }
}

/// The row between two groups of lines that do not touch.
pub open spec fn separator_row(path: Seq<char>) -> Row {
    Row { path, num: 0, text: seq![], count: None, context: false, separator: true }
}

/// The row with the number of selected lines of a file.
pub open spec fn count_row(path: Seq<char>, n: int) -> Row {
    Row { path, num: 0, text: seq![], count: Some(n), context: false, separator: false }
}

/// The row for line number `num`, or a match in it.
pub open spec fn line_row(path: Seq<char>, num: int, text: Seq<char>, context: bool) -> Row {
    Row { path, num, text: sanitize::sanitized(text), count: None, context, separator: false }
}

impl LineRules {
    /// -v turns the selection round.
    pub open spec fn selects(self, l: Line) -> bool {
        (l.hits.len() > 0) != self.invert
    }

    /// How many lines the rules select, regardless of any limit.
    pub open spec fn selections(self, h: Seq<Line>) -> nat
        decreases h.len(),
    {
        if h.len() == 0 {
            0
        } else {
            self.selections(h.drop_last()) + if self.selects(h.last()) {
                1nat
            } else {
                0nat
            }
        }
    }

    /// How many lines are selected at most: one where a single line settles
    /// what is reported, else what -m says. A limit of zero is one of one.
    pub open spec fn cap(self) -> Option<int> {
        if self.mode is Quiet || self.mode is ListMatching || self.mode is ListMissing {
            Some(1)
        } else {
            match self.max_count {
                Some(m) => Some(if m == 0 {
                    1
                } else {
                    m as int
                }),
                None => None,
            }
        }
    }

    /// Whether one more line can be selected after `n`.
    pub open spec fn has_room(self, n: int) -> bool {
        self.cap() matches Some(c) ==> n < c
    }

    /// Line `i` is selected: it is one that the rules select, and the limit is
    /// not used up before it.
    pub open spec fn chosen(self, h: Seq<Line>, i: int) -> bool {
        &&& 0 <= i < h.len()
        &&& self.selects(h[i])
        &&& self.has_room(self.selections(h.take(i)) as int)
    }

    /// How many lines are selected.
    pub open spec fn count(self, h: Seq<Line>) -> int {
        let n = self.selections(h) as int;
        match self.cap() {
            Some(c) if c < n => c,
            _ => n,
        }
    }

    /// Line `i` is close enough to the selected line `j` to be its context.
    pub open spec fn near(self, i: int, j: int) -> bool {
        j - self.before <= i <= j + self.after
    }

    /// Line `i` is shown: it is selected, or in the context of such a line.
    pub open spec fn shown(self, h: Seq<Line>, i: int) -> bool {
        &&& 0 <= i < h.len()
        &&& exists|j: int| #[trigger] self.chosen(h, j) && self.near(i, j)
    }

    /// Context is asked for.
    pub open spec fn has_context(self) -> bool {
        self.before > 0 || self.after > 0
    }

    /// Line `i` starts a new group: some line before it is shown, but not the
    /// one just before it.
    pub open spec fn gap(self, h: Seq<Line>, i: int) -> bool {
        &&& self.has_context()
        &&& !self.shown(h, i - 1)
        &&& exists|j: int| j < i && #[trigger] self.shown(h, j)
    }

    /// The rows for line `i`.
    pub open spec fn shown_rows(self, path: Seq<char>, h: Seq<Line>, i: int) -> Seq<Row> {
        let row = line_row(path, i + 1, h[i].text, !self.chosen(h, i));
        if !self.shown(h, i) {
            seq![]
        } else if self.gap(h, i) {
            seq![separator_row(path), row]
        } else {
            seq![row]
        }
    }

    /// The rows for the first `k` lines: the shown ones in order, with a
    /// separator before each new group.
    pub open spec fn listing(self, path: Seq<char>, h: Seq<Line>, k: int) -> Seq<Row>
        decreases k,
    {
        if k <= 0 {
            seq![]
        } else {
            self.listing(path, h, k - 1) + self.shown_rows(path, h, k - 1)
        }
    }

    /// One row for each match in a line.
    pub open spec fn piece_rows(self, path: Seq<char>, num: int, l: Line) -> Seq<Row> {
        Seq::new(
            l.hits.len(),
            |i: int|
                line_row(
                    path,
                    num,
                    text::byte_slice(l.text, l.hits[i].0 as int, l.hits[i].1 as int),
                    false,
                ),
        )
    }

    /// One row for each match in each selected line.
    pub open spec fn pieces(self, path: Seq<char>, h: Seq<Line>) -> Seq<Row>
        decreases h.len(),
    {
        if h.len() == 0 {
            seq![]
        } else if self.chosen(h, h.len() - 1) {
            self.pieces(path, h.drop_last()) + self.piece_rows(path, h.len() as int, h.last())
        } else {
            self.pieces(path, h.drop_last())
        }
    }

    /// What is reported while the lines are read.
    pub open spec fn body(self, path: Seq<char>, h: Seq<Line>) -> Seq<Row> {
        match self.mode {
            Mode::Quiet | Mode::ListMissing | Mode::Count => seq![],
            Mode::ListMatching => if self.count(h) > 0 {
                seq![name_row(path)]
            } else {
                seq![]
            },
            Mode::Pieces => self.pieces(path, h),
            Mode::Lines => self.listing(path, h, h.len() as int),
        }
    }

    /// What is reported once the lines are read, where reading may have
    /// failed part of the way.
    pub open spec fn tail(self, path: Seq<char>, h: Seq<Line>, failed: bool) -> Seq<Row> {
        let counted = if self.count_at_end {
            seq![count_row(path, self.count(h))]
        } else {
            seq![]
        };
        let missing = if self.missing_at_end && self.count(h) == 0 && !failed {
            seq![name_row(path)]
        } else {
            seq![]
        };
        counted + missing
    }

    /// The report of a file.
    pub open spec fn report(self, path: Seq<char>, h: Seq<Line>, failed: bool) -> Seq<Row> {
        self.body(path, h) + self.tail(path, h, failed)
    }

    /// The last selected line, or a negative number.
    pub open spec fn last_chosen(self, h: Seq<Line>) -> int
        decreases h.len(),
    {
        if h.len() == 0 {
            -1
        } else if self.chosen(h, h.len() - 1) {
            h.len() - 1
        } else {
            self.last_chosen(h.drop_last())
        }
    }

    /// How many of the lines to come are trailing context of those read.
    pub open spec fn trailing(self, h: Seq<Line>) -> int {
        let last = self.last_chosen(h);
        let left = self.after - (h.len() - 1 - last);
        if self.mode is Lines && last >= 0 && left > 0 {
            left
        } else {
            0
        }
    }

    /// Nothing that could still be read would be reported.
    pub open spec fn finished(self, h: Seq<Line>) -> bool {
        !self.has_room(self.selections(h) as int) && self.trailing(h) == 0
    }
}

} // verus!
