//! Colors, styles and their rendering as ANSI SGR escape sequences.

use vstd::prelude::*;

verus! {

/// The sixteen named terminal colors plus a catch-all for colors that
/// have no SGR code of their own.
#[derive(Clone, Copy, PartialEq, Eq, Structural, Debug)]
pub enum Color {
    Black,
    Red,
    Green,
    Yellow,
    Blue,
    Magenta,
    Cyan,
    Gray,
    DarkGray,
    LightRed,
    LightGreen,
    LightYellow,
    LightBlue,
    LightMagenta,
    LightCyan,
    White,
    Other,
}

/// A character style: optional foreground and background colors plus the
/// bold / underline / dim flags.
#[derive(Clone, Copy, PartialEq, Eq, Structural, Debug)]
pub struct Style {
    pub fg: Option<Color>,
    pub bg: Option<Color>,
    pub bold: bool,
    pub underline: bool,
    pub dim: bool,
}

/// The default style: no colors, no flags.
pub open spec fn default_style() -> Style {
    Style { fg: None, bg: None, bold: false, underline: false, dim: false }
}

impl Default for Style {
    fn default() -> (s: Style)
        ensures
            s == default_style(),
    {
        Style { fg: None, bg: None, bold: false, underline: false, dim: false }
    }
}

/// The SGR code of a color: the eight base colors map to `30 + n`
/// (foreground) or `40 + n` (background), the eight bright variants add 60,
/// and any other color has no code.
pub open spec fn color_code(c: Color, is_bg: bool) -> Option<u8> {
    let base: u8 = if is_bg { 40 } else { 30 };
    match c {
        Color::Black => Some(base),
        Color::Red => Some((base + 1) as u8),
        Color::Green => Some((base + 2) as u8),
        Color::Yellow => Some((base + 3) as u8),
        Color::Blue => Some((base + 4) as u8),
        Color::Magenta => Some((base + 5) as u8),
        Color::Cyan => Some((base + 6) as u8),
        Color::Gray => Some((base + 7) as u8),
        Color::DarkGray => Some((base + 60) as u8),
        Color::LightRed => Some((base + 61) as u8),
        Color::LightGreen => Some((base + 62) as u8),
        Color::LightYellow => Some((base + 63) as u8),
        Color::LightBlue => Some((base + 64) as u8),
        Color::LightMagenta => Some((base + 65) as u8),
        Color::LightCyan => Some((base + 66) as u8),
        Color::White => Some((base + 67) as u8),
        Color::Other => None,
    }
}

/// Maps a color to its numeric SGR code, `None` for unmapped colors.
pub fn color_to_ansi(c: Color, is_bg: bool) -> (r: Option<u8>)
    ensures
        r == color_code(c, is_bg),
{
    let base: u8 = if is_bg { 40 } else { 30 };
    match c {
        Color::Black => Some(base),
        Color::Red => Some(base + 1),
        Color::Green => Some(base + 2),
        Color::Yellow => Some(base + 3),
        Color::Blue => Some(base + 4),
        Color::Magenta => Some(base + 5),
        Color::Cyan => Some(base + 6),
        Color::Gray => Some(base + 7),
        Color::DarkGray => Some(base + 60),
        Color::LightRed => Some(base + 61),
        Color::LightGreen => Some(base + 62),
        Color::LightYellow => Some(base + 63),
        Color::LightBlue => Some(base + 64),
        Color::LightMagenta => Some(base + 65),
        Color::LightCyan => Some(base + 66),
        Color::White => Some(base + 67),
        Color::Other => None,
    }
}

/// Every named color has its own code: the mapping never sends two distinct
/// named colors to the same SGR number, so the color of any emitted code can
/// be read back unambiguously.
pub proof fn lemma_color_codes_unique(c1: Color, c2: Color, is_bg: bool)
    requires
        c1 != c2,
        c1 != Color::Other,
        c2 != Color::Other,
    ensures
        color_code(c1, is_bg) != color_code(c2, is_bg),
{
}

/// The decimal digit `d` as a character.
pub open spec fn digit_char(d: u8) -> char {
    if d == 0 { '0' }
    else if d == 1 { '1' }
    else if d == 2 { '2' }
    else if d == 3 { '3' }
    else if d == 4 { '4' }
    else if d == 5 { '5' }
    else if d == 6 { '6' }
    else if d == 7 { '7' }
    else if d == 8 { '8' }
    else { '9' }
}

/// The decimal rendering of an SGR code (codes are at most three digits).
pub open spec fn code_chars(n: u8) -> Seq<char> {
    if n < 10 {
        seq![digit_char(n)]
    } else if n < 100 {
        seq![digit_char((n / 10) as u8), digit_char((n % 10) as u8)]
    } else {
        seq![digit_char((n / 100) as u8), digit_char(((n / 10) % 10) as u8), digit_char((n % 10) as u8)]
    }
}

/// One complete SGR escape sequence: `ESC [ <code> m`.
pub open spec fn sgr_chars(n: u8) -> Seq<char> {
    seq!['\u{1b}', '['] + code_chars(n) + seq!['m']
}

/// The escape sequences that switch the terminal to style `s`, in the fixed
/// order bold, underline, dim, foreground, background. A default style emits
/// nothing at all.
pub open spec fn style_chars(s: Style) -> Seq<char> {
    (if s.bold { sgr_chars(1) } else { Seq::<char>::empty() })
    + (if s.underline { sgr_chars(4) } else { Seq::<char>::empty() })
    + (if s.dim { sgr_chars(2) } else { Seq::<char>::empty() })
    + (match s.fg {
        Some(c) => match color_code(c, false) {
            Some(n) => sgr_chars(n),
            None => Seq::<char>::empty(),
        },
        None => Seq::<char>::empty(),
    })
    + (match s.bg {
        Some(c) => match color_code(c, true) {
            Some(n) => sgr_chars(n),
            None => Seq::<char>::empty(),
        },
        None => Seq::<char>::empty(),
    })
}

/// Pushes the decimal digit `d` as a character.
fn push_digit(out: &mut Vec<char>, d: u8)
    requires
        d < 10,
    ensures
        final(out)@ == old(out)@.push(digit_char(d)),
{
    let c = if d == 0 { '0' }
    else if d == 1 { '1' }
    else if d == 2 { '2' }
    else if d == 3 { '3' }
    else if d == 4 { '4' }
    else if d == 5 { '5' }
    else if d == 6 { '6' }
    else if d == 7 { '7' }
    else if d == 8 { '8' }
    else { '9' };
    out.push(c);
}

/// Appends one SGR escape sequence for code `n`.
fn push_sgr(out: &mut Vec<char>, n: u8)
    ensures
        final(out)@ == old(out)@ + sgr_chars(n),
{
    out.push('\u{1b}');
    out.push('[');
    if n < 10 {
        push_digit(out, n);
    } else if n < 100 {
        push_digit(out, n / 10);
        push_digit(out, n % 10);
    } else {
        push_digit(out, n / 100);
        push_digit(out, (n / 10) % 10);
        push_digit(out, n % 10);
    }
    out.push('m');
    assert(out@ =~= old(out)@ + sgr_chars(n));
}

/// Appends the escape sequences that switch to style `s`.
#[verifier::rlimit(60)]
pub fn push_style_chars(out: &mut Vec<char>, s: Style)
    ensures
        final(out)@ == old(out)@ + style_chars(s),
{
    let ghost p1 = if s.bold { sgr_chars(1) } else { Seq::<char>::empty() };
    let ghost p2 = if s.underline { sgr_chars(4) } else { Seq::<char>::empty() };
    let ghost p3 = if s.dim { sgr_chars(2) } else { Seq::<char>::empty() };
    let ghost p4 = match s.fg {
        Some(c) => match color_code(c, false) {
            Some(n) => sgr_chars(n),
            None => Seq::<char>::empty(),
        },
        None => Seq::<char>::empty(),
    };
    let ghost p5 = match s.bg {
        Some(c) => match color_code(c, true) {
            Some(n) => sgr_chars(n),
            None => Seq::<char>::empty(),
        },
        None => Seq::<char>::empty(),
    };
    if s.bold {
        push_sgr(out, 1);
    }
    assert(out@ =~= old(out)@ + p1);
    if s.underline {
        push_sgr(out, 4);
    }
    assert(out@ =~= old(out)@ + p1 + p2);
    if s.dim {
        push_sgr(out, 2);
    }
    assert(out@ =~= old(out)@ + p1 + p2 + p3);
    if let Some(c) = s.fg {
        if let Some(n) = color_to_ansi(c, false) {
            push_sgr(out, n);
        }
    }
    assert(out@ =~= old(out)@ + p1 + p2 + p3 + p4);
    if let Some(c) = s.bg {
        if let Some(n) = color_to_ansi(c, true) {
            push_sgr(out, n);
        }
    }
    assert(out@ =~= old(out)@ + p1 + p2 + p3 + p4 + p5);
    assert(style_chars(s) == p1 + p2 + p3 + p4 + p5);
}

/// The escape-code text that switches to style `s`, as the characters of a
/// fresh buffer.
pub fn style_to_ansi(s: Style) -> (r: Vec<char>)
    ensures
        r@ == style_chars(s),
{
    let mut out: Vec<char> = Vec::new();
    push_style_chars(&mut out, s);
    assert(out@ =~= style_chars(s));
    out
}

} // verus!
