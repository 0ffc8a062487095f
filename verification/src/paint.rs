//! Colours on a terminal.

use colored::Colorize;
use vstd::prelude::*;
use vstd::string::*;

verus! {

/// The ways in which a piece of text can be set off.
#[derive(Debug, Clone, Copy, PartialEq, Eq, Structural)]
pub enum Style {
    Magenta,
    MagentaBold,
    Cyan,
    Green,
    RedBold,
    BlueBold,
}

impl Style {
    /// The escape sequence that switches the style on.
    pub open spec fn start(self) -> Seq<char> {
        match self {
            Style::Magenta => seq!['\u{1b}', '[', '3', '5', 'm'],
            Style::MagentaBold => seq!['\u{1b}', '[', '1', ';', '3', '5', 'm'],
            Style::Cyan => seq!['\u{1b}', '[', '3', '6', 'm'],
            Style::Green => seq!['\u{1b}', '[', '3', '2', 'm'],
            Style::RedBold => seq!['\u{1b}', '[', '1', ';', '3', '1', 'm'],
            Style::BlueBold => seq!['\u{1b}', '[', '1', ';', '3', '4', 'm'],
        }
    }
}

/// The escape sequence that switches every style off.
pub open spec fn reset() -> Seq<char> {
    seq!['\u{1b}', '[', '0', 'm']
}

/// A text in which the style is switched on again after each reset.
pub open spec fn restyled(s: Seq<char>, style: Style) -> Seq<char>
    decreases s.len(),
{
    if s.len() == 0 {
        seq![]
    } else if s.len() >= 4 && s.take(4) == reset() {
        reset() + style.start() + restyled(s.skip(4), style)
    } else {
        seq![s[0]] + restyled(s.drop_first(), style)
    }
}

/// A text with its style around it.
pub open spec fn styled(s: Seq<char>, style: Style) -> Seq<char> {
    style.start() + restyled(s, style) + reset()
}

/// `out` is the text, as it is or in its style.
pub open spec fn is_painted(out: Seq<char>, s: Seq<char>, style: Style) -> bool {
    out == s || out == styled(s, style)
}

/// Calls the methods of `colored::Colorize` for a style and writes out the
/// result. Whether there is any colour at all the crate decides from the
/// environment; if there is, the text stands between the style's escape
/// sequence and the reset, and the style is repeated after each reset inside.
#[verifier::external_body]
pub(crate) fn paint(s: &str, style: Style) -> (r: String)
    ensures
        is_painted(r@, s@, style),
{
    let painted = match style {
        Style::Magenta => s.magenta(),
        Style::MagentaBold => s.magenta().bold(),
        Style::Cyan => s.cyan(),
        Style::Green => s.green(),
        Style::RedBold => s.red().bold(),
        Style::BlueBold => s.blue().bold(),
    };
    painted.to_string()
}

/// A piece of text with or without a style.
pub struct Piece {
    pub text: String,
    pub style: Option<Style>,
}

/// What a piece amounts to.
pub ghost struct PieceView {
    pub text: Seq<char>,
    pub style: Option<Style>,
}

impl View for Piece {
    type V = PieceView;

    open spec fn view(&self) -> PieceView {
        PieceView { text: self.text@, style: self.style }
    }
}

impl DeepView for Piece {
    type V = PieceView;

    open spec fn deep_view(&self) -> PieceView {
        self@
    }
}

/// A piece without a style.
pub open spec fn plain_piece(text: Seq<char>) -> PieceView {
    PieceView { text, style: None }
}

/// A piece with a style.
pub open spec fn styled_piece(text: Seq<char>, style: Style) -> PieceView {
    PieceView { text, style: Some(style) }
}

/// `out` is the piece as it is printed.
pub open spec fn prints(out: Seq<char>, piece: PieceView) -> bool {
    match piece.style {
        Some(style) => is_painted(out, piece.text, style),
        None => out == piece.text,
    }
}

/// `out` is the pieces as they are printed, one after the other.
pub open spec fn prints_all(out: Seq<char>, pieces: Seq<PieceView>) -> bool
    decreases pieces.len(),
{
    if pieces.len() == 0 {
        out.len() == 0
    } else {
        exists|k: int|
            0 <= k <= out.len() && prints(#[trigger] out.skip(k), pieces.last()) && prints_all(
                out.take(k),
                pieces.drop_last(),
            )
    }
}

/// A piece without a style.
pub fn plain(text: String) -> (r: Piece)
    ensures
        r@ == plain_piece(text@),
{
    Piece { text, style: None }
}

/// A piece with a style.
pub fn with_style(text: String, style: Style) -> (r: Piece)
    ensures
        r@ == styled_piece(text@, style),
{
    Piece { text, style: Some(style) }
}

proof fn lemma_prints_push(out: Seq<char>, pieces: Seq<PieceView>, more: Seq<char>, p: PieceView)
    requires
        prints_all(out, pieces),
        prints(more, p),
    ensures
        prints_all(out + more, pieces.push(p)),
{
    let k = out.len() as int;
    assert((out + more).skip(k) =~= more);
    assert((out + more).take(k) =~= out);
    assert(pieces.push(p).drop_last() =~= pieces);
}

/// Prints the pieces one after the other.
pub fn render(pieces: &Vec<Piece>) -> (r: String)
    ensures
        prints_all(r@, pieces.deep_view()),
{
    let ghost all = pieces.deep_view();
    let mut out = String::new();
    let mut i: usize = 0;
    while i < pieces.len()
        invariant
            0 <= i <= pieces.len(),
            all == pieces.deep_view(),
            prints_all(out@, all.take(i as int)),
        decreases pieces.len() - i,
    {
        let ghost before = out@;
        let printed: String = match pieces[i].style {
            Some(style) => paint(pieces[i].text.as_str(), style),
            None => pieces[i].text.clone(),
        };
        out.append(printed.as_str());
        proof {
            lemma_prints_push(before, all.take(i as int), printed@, all[i as int]);
            assert(all.take(i as int).push(all[i as int]) =~= all.take(i + 1));
        }
        i += 1;
    }
    assert(all.take(pieces.len() as int) =~= all);
    out
}

/// A text without an escape character is left alone inside its style.
pub proof fn plain_text_is_kept(s: Seq<char>, style: Style)
    requires
        forall|i: int| 0 <= i < s.len() ==> #[trigger] s[i] != '\u{1b}',
    ensures
        styled(s, style) == style.start() + s + reset(),
{
    lemma_restyled_plain(s, style);
}

proof fn lemma_restyled_plain(s: Seq<char>, style: Style)
    requires
        forall|i: int| 0 <= i < s.len() ==> #[trigger] s[i] != '\u{1b}',
    ensures
        restyled(s, style) == s,
    decreases s.len(),
{
    if s.len() > 0 {
        if s.len() >= 4 && s.take(4) == reset() {
            assert(s.take(4)[0] == s[0]);
            assert(reset()[0] == '\u{1b}');
        }
        assert forall|i: int| 0 <= i < s.drop_first().len() implies #[trigger] s.drop_first()[i]
            != '\u{1b}' by {
            assert(s.drop_first()[i] == s[i + 1]);
        }
        lemma_restyled_plain(s.drop_first(), style);
        assert(seq![s[0]] + s.drop_first() =~= s);
    }
}

} // verus!
