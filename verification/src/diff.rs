//! The row diff and style engine: decides which fragments of a row are
//! dimmed because they repeat the neighbouring row, and which connector
//! glyph links rows that share one action sequence.

use vstd::prelude::*;
use crate::style::{Style, Color, default_style};
use crate::tokens::{Token, token_eq, token_text, token_matches, token_string};
use crate::keys::{Key, key_part_texts, key_to_parts};
use crate::text::{display_width, text_width};

verus! {

/// A piece of styled text.
pub struct Span {
    pub text: String,
    pub style: Style,
}

/// One table cell: styled text fragments plus the cell's display width.
pub struct Cell {
    pub spans: Vec<Span>,
    pub width: usize,
}

/// The dimmed rendering: dark-gray foreground.
pub open spec fn dim_style() -> Style {
    Style { fg: Some(Color::DarkGray), bg: None, bold: false, underline: false, dim: false }
}

/// The novel rendering: white foreground.
pub open spec fn bright_style() -> Style {
    Style { fg: Some(Color::White), bg: None, bold: false, underline: false, dim: false }
}

/// The index of the first position at or after `i` where the two token
/// streams diverge: where either stream ends, or the tokens differ.
pub open spec fn first_diff(cur: Seq<Token>, prev: Seq<Token>, i: int) -> int
    decreases cur.len() - i,
{
    if i >= cur.len() || i >= prev.len() {
        i
    } else if token_eq(cur[i], prev[i]) {
        first_diff(cur, prev, i + 1)
    } else {
        i
    }
}

proof fn lemma_first_diff_ge(cur: Seq<Token>, prev: Seq<Token>, i: int)
    ensures
        first_diff(cur, prev, i) >= i,
    decreases cur.len() - i,
{
    if i < cur.len() && i < prev.len() && token_eq(cur[i], prev[i]) {
        lemma_first_diff_ge(cur, prev, i + 1);
    }
}

/// The style of the token at position `j` of the current stream: dimmed
/// before the first divergence from the previous stream; from the
/// divergence on, symbols switch to the bright foreground while syntax
/// stays dimmed.
pub open spec fn diff_style(cur: Seq<Token>, prev: Seq<Token>, j: int) -> Style {
    if j < first_diff(cur, prev, 0) {
        dim_style()
    } else {
        match cur[j] {
            Token::Symbol(_) => bright_style(),
            Token::Syntax(_) => dim_style(),
        }
    }
}

/// Renders the current token stream against the previous row's stream:
/// tokens before the first divergence are dimmed; the diverging token and
/// everything after it render undimmed, except syntax tokens, which keep
/// the dim style throughout.
pub fn styled_line(cur: &Vec<Token>, prev: &Vec<Token>) -> (r: Vec<Span>)
    ensures
        r@.len() == cur@.len(),
        forall|j: int|
            0 <= j < r@.len() ==> r@[j].text@ == token_text(cur@[j]) && r@[j].style == diff_style(
                cur@,
                prev@,
                j,
            ),
{
    let ghost d = first_diff(cur@, prev@, 0);
    proof {
        lemma_first_diff_ge(cur@, prev@, 0);
    }
    let mut r: Vec<Span> = Vec::new();
    let mut differing: bool = false;
    let mut i: usize = 0;
    while i < cur.len()
        invariant
            i <= cur@.len(),
            r@.len() == i,
            d == first_diff(cur@, prev@, 0),
            !differing ==> i <= d && d == first_diff(cur@, prev@, i as int),
            differing ==> d < i,
            forall|j: int|
                0 <= j < i ==> r@[j].text@ == token_text(cur@[j]) && r@[j].style == diff_style(
                    cur@,
                    prev@,
                    j,
                ),
        decreases cur@.len() - i,
    {
        let mut matched: bool = false;
        if !differing && i < prev.len() {
            if token_matches(&cur[i], &prev[i]) {
                matched = true;
            }
        }
        if matched {
            proof {
                lemma_first_diff_ge(cur@, prev@, i as int + 1);
            }
            let text = token_string(&cur[i]);
            r.push(Span { text, style: Style { fg: Some(Color::DarkGray), bg: None, bold: false, underline: false, dim: false } });
        } else {
            if !differing {
                differing = true;
            }
            let text = token_string(&cur[i]);
            let style = match &cur[i] {
                Token::Symbol(_) => Style { fg: Some(Color::White), bg: None, bold: false, underline: false, dim: false },
                Token::Syntax(_) => Style { fg: Some(Color::DarkGray), bg: None, bold: false, underline: false, dim: false },
            };
            r.push(Span { text, style });
        }
        i = i + 1;
    }
    r
}

/// Caps a sum at the largest representable width.
pub open spec fn sat_add(a: int, b: int) -> int {
    if a + b > usize::MAX as int {
        usize::MAX as int
    } else {
        a + b
    }
}

/// The total display width of a span list, capped at `usize::MAX`.
pub open spec fn spans_width(spans: Seq<Span>) -> int
    decreases spans.len(),
{
    if spans.len() == 0 {
        0
    } else {
        sat_add(spans_width(spans.drop_last()), display_width(spans.last().text@) as int)
    }
}

/// Sums the display widths of the spans, saturating at `usize::MAX`.
pub fn measure_spans(spans: &Vec<Span>) -> (r: usize)
    ensures
        r as int == spans_width(spans@),
{
    let mut w: usize = 0;
    let mut i: usize = 0;
    while i < spans.len()
        invariant
            i <= spans@.len(),
            w as int == spans_width(spans@.subrange(0, i as int)),
        decreases spans@.len() - i,
    {
        let tw = text_width(spans[i].text.as_str());
        let next = if usize::MAX - w < tw {
            usize::MAX
        } else {
            w + tw
        };
        proof {
            let pre = spans@.subrange(0, i as int + 1);
            assert(pre.drop_last() =~= spans@.subrange(0, i as int));
            assert(pre.last() == spans@[i as int]);
        }
        w = next;
        i = i + 1;
    }
    proof {
        assert(spans@.subrange(0, spans@.len() as int) =~= spans@);
    }
    w
}

/// Turns `Some(&K)` into `Some(K)` for use in contracts.
pub open spec fn opt_key(p: Option<&Key>) -> Option<Key> {
    match p {
        Some(k) => Some(*k),
        None => None,
    }
}

/// The style of the modifier part: dimmed exactly when it is non-empty and
/// repeats the previous row's modifier, collapsing runs of `Ctrl +`.
pub open spec fn modifier_style(k: Key, prev: Option<Key>) -> Style {
    if (match prev {
        Some(p) => key_part_texts(p).0 == key_part_texts(k).0 && key_part_texts(k).0.len() > 0,
        None => false,
    }) {
        dim_style()
    } else {
        bright_style()
    }
}

/// The three key cells of a row: modifier, separator and base. The
/// separator is always dimmed, the base always bright, and the modifier is
/// dimmed exactly when it repeats the previous row's modifier. Each cell's
/// width is its text's display width.
pub fn key_cells(k: &Key, prev: Option<&Key>) -> (r: Vec<Cell>)
    ensures
        r@.len() == 3,
        forall|i: int| 0 <= i < 3 ==> #[trigger] r@[i].spans@.len() == 1,
        r@[0].spans@[0].text@ == key_part_texts(*k).0,
        r@[1].spans@[0].text@ == key_part_texts(*k).1,
        r@[2].spans@[0].text@ == key_part_texts(*k).2,
        r@[0].spans@[0].style == modifier_style(*k, opt_key(prev)),
        r@[1].spans@[0].style == dim_style(),
        r@[2].spans@[0].style == bright_style(),
        forall|i: int|
            0 <= i < 3 ==> #[trigger] r@[i].width as int == display_width(
                r@[i].spans@[0].text@,
            ),
{
    let parts = key_to_parts(k);
    let modifier_dim: bool = match prev {
        Some(p) => {
            let prev_parts = key_to_parts(p);
            let same = parts.modifier == prev_parts.modifier;
            same && parts.modifier.as_str().unicode_len() > 0
        },
        None => false,
    };
    let m_style = if modifier_dim {
        Style { fg: Some(Color::DarkGray), bg: None, bold: false, underline: false, dim: false }
    } else {
        Style { fg: Some(Color::White), bg: None, bold: false, underline: false, dim: false }
    };
    let mut r: Vec<Cell> = Vec::new();
    let w0 = text_width(parts.modifier.as_str());
    r.push(Cell { spans: vec![Span { text: parts.modifier, style: m_style }], width: w0 });
    let w1 = text_width(parts.separator.as_str());
    r.push(Cell {
        spans: vec![
            Span {
                text: parts.separator,
                style: Style { fg: Some(Color::DarkGray), bg: None, bold: false, underline: false, dim: false },
            },
        ],
        width: w1,
    });
    let w2 = text_width(parts.base.as_str());
    r.push(Cell {
        spans: vec![
            Span {
                text: parts.base,
                style: Style { fg: Some(Color::White), bg: None, bold: false, underline: false, dim: false },
            },
        ],
        width: w2,
    });
    r
}

/// The connector glyph for a row whose action sequence may repeat its
/// neighbours': `┳` opens a run, `┫` continues one, `┛` closes one, and
/// `━` marks a row that stands alone.
pub open spec fn glyph_text(prev_match: bool, next_match: bool) -> Seq<char> {
    if !prev_match && next_match {
        "┳"@
    } else if prev_match && next_match {
        "┫"@
    } else if prev_match && !next_match {
        "┛"@
    } else {
        "━"@
    }
}

/// The two action cells of a row: the one-character connector glyph cell
/// (always undimmed, width one) and the action text cell. A row whose
/// action repeats the previous row's renders an empty text cell; otherwise
/// the text cell holds the diffed line against the previous row's tokens,
/// and its width is the spans' total display width.
pub fn action_cells(cur: &Vec<Token>, prev: &Vec<Token>, prev_match: bool, next_match: bool) -> (r:
    (Cell, Cell))
    ensures
        r.0.spans@.len() == 1,
        r.0.spans@[0].text@ == glyph_text(prev_match, next_match),
        r.0.spans@[0].style == default_style(),
        r.0.width == 1,
        prev_match ==> r.1.spans@.len() == 0 && r.1.width == 0,
        !prev_match ==> r.1.spans@.len() == cur@.len() && (forall|j: int|
            0 <= j < cur@.len() ==> r.1.spans@[j].text@ == token_text(cur@[j])
                && r.1.spans@[j].style == diff_style(cur@, prev@, j)) && r.1.width as int
            == spans_width(r.1.spans@),
{
    let glyph = if !prev_match && next_match {
        String::from_str("┳")
    } else if prev_match && next_match {
        String::from_str("┫")
    } else if prev_match && !next_match {
        String::from_str("┛")
    } else {
        String::from_str("━")
    };
    let glyph_cell = Cell {
        spans: vec![Span { text: glyph, style: Style::default() }],
        width: 1,
    };
    if prev_match {
        let text_cell = Cell { spans: Vec::new(), width: 0 };
        (glyph_cell, text_cell)
    } else {
        let spans = styled_line(cur, prev);
        let width = measure_spans(&spans);
        let text_cell = Cell { spans, width };
        (glyph_cell, text_cell)
    }
}

} // verus!
