//! The styled-grid renderer: paints positioned cells into a width x height
//! grid and serializes it row-major as text with ANSI escape sequences.

use vstd::prelude::*;
use crate::style::{Style, default_style, style_chars, push_style_chars, color_code, sgr_chars, code_chars};
use crate::text::chars_to_string;

verus! {

/// One painted grid position: coordinates, the character shown there and
/// its style.
#[derive(Clone, Copy, PartialEq, Eq, Structural, Debug)]
pub struct ScreenCell {
    pub x: u16,
    pub y: u16,
    pub ch: char,
    pub style: Style,
}

/// The cell painted at `(x, y)`, the latest write winning, or `None` where
/// nothing was painted.
pub open spec fn find_cell(content: Seq<ScreenCell>, x: int, y: int) -> Option<ScreenCell>
    decreases content.len(),
{
    if content.len() == 0 {
        None
    } else if content.last().x == x && content.last().y == y {
        Some(content.last())
    } else {
        find_cell(content.drop_last(), x, y)
    }
}

/// The character shown at `(x, y)`: the painted one, or a blank space.
pub open spec fn cell_char(content: Seq<ScreenCell>, x: int, y: int) -> char {
    match find_cell(content, x, y) {
        Some(c) => c.ch,
        None => ' ',
    }
}

/// The serialized text of row `y` from column `x` on, given the running
/// style `cur`: painted cells whose style differs from the running style
/// first emit that style's escape codes. An unpainted position is a blank
/// cell in the default style, so it emits a plain space (the default style
/// has no codes of its own) and the running style becomes default — a
/// styled cell after a gap re-emits its codes. Every row ends with a style
/// reset followed by a newline.
pub open spec fn row_chars(content: Seq<ScreenCell>, y: int, w: int, x: int, cur: Style) -> Seq<char>
    decreases w - x,
{
    if x >= w {
        seq!['\u{1b}', '[', '0', 'm', '\n']
    } else {
        match find_cell(content, x, y) {
            Some(c) => (if c.style != cur {
                style_chars(c.style)
            } else {
                Seq::<char>::empty()
            }) + seq![c.ch] + row_chars(content, y, w, x + 1, c.style),
            None => seq![' '] + row_chars(content, y, w, x + 1, default_style()),
        }
    }
}

/// The serialized rows from `y` down, each starting from the default style.
pub open spec fn rows_chars(content: Seq<ScreenCell>, w: int, h: int, y: int) -> Seq<char>
    decreases h - y,
{
    if y >= h {
        Seq::<char>::empty()
    } else {
        row_chars(content, y, w, 0, default_style()) + rows_chars(content, w, h, y + 1)
    }
}

/// The complete serialization of a `w x h` grid painted by `content`.
pub open spec fn screen_chars(content: Seq<ScreenCell>, w: int, h: int) -> Seq<char> {
    rows_chars(content, w, h, 0)
}

/// Finds the painted cell at `(x, y)`, the latest write winning.
fn lookup(content: &Vec<ScreenCell>, x: u16, y: u16) -> (r: Option<ScreenCell>)
    ensures
        r == find_cell(content@, x as int, y as int),
{
    let mut i: usize = content.len();
    proof {
        assert(content@.subrange(0, content@.len() as int) =~= content@);
    }
    while i > 0
        invariant
            i <= content@.len(),
            find_cell(content@, x as int, y as int) == find_cell(
                content@.subrange(0, i as int),
                x as int,
                y as int,
            ),
        decreases i,
    {
        i = i - 1;
        let c = content[i];
        let ghost pre = content@.subrange(0, i as int + 1);
        proof {
            assert(pre.last() == content@[i as int]);
            assert(pre.drop_last() =~= content@.subrange(0, i as int));
        }
        if c.x == x && c.y == y {
            return Some(c);
        }
    }
    proof {
        assert(content@.subrange(0, 0) =~= Seq::<ScreenCell>::empty());
    }
    None
}

/// Captures the serialized output of a grid of a fixed size.
pub struct AnsiBackend {
    pub width: u16,
    pub height: u16,
    pub output: String,
}

impl AnsiBackend {
    /// A backend for a `width x height` grid with empty output.
    pub fn new(width: u16, height: u16) -> (r: AnsiBackend)
        ensures
            r.width == width,
            r.height == height,
            r.output@ == Seq::<char>::empty(),
    {
        AnsiBackend { width, height, output: String::new() }
    }

    /// The captured serialized string.
    pub fn get_output(&self) -> (r: &str)
        ensures
            r@ == self.output@,
    {
        self.output.as_str()
    }

    /// Serializes the painted cells into the output string. A zero-width or
    /// zero-height grid is a no-op and produces empty output; otherwise the
    /// output is exactly the grid serialization `screen_chars`.
    pub fn draw(&mut self, content: &Vec<ScreenCell>)
        ensures
            final(self).width == old(self).width,
            final(self).height == old(self).height,
            old(self).width == 0 || old(self).height == 0 ==> final(self).output@
                == Seq::<char>::empty(),
            old(self).width > 0 && old(self).height > 0 ==> final(self).output@
                == screen_chars(content@, old(self).width as int, old(self).height as int),
    {
        let w = self.width;
        let h = self.height;
        if w == 0 || h == 0 {
            self.output = String::new();
            return;
        }
        let ghost cs = content@;
        let ghost wi = w as int;
        let ghost hi = h as int;
        let mut out: Vec<char> = Vec::new();
        let mut y: u16 = 0;
        while y < h
            invariant
                0 < w,
                y <= h,
                wi == w as int,
                hi == h as int,
                cs == content@,
                screen_chars(cs, wi, hi) == out@ + rows_chars(cs, wi, hi, y as int),
            decreases h - y,
        {
            let ghost out_row_start = out@;
            let mut x: u16 = 0;
            let mut cur: Style = Style::default();
            proof {
                assert(rows_chars(cs, wi, hi, y as int) == row_chars(cs, y as int, wi, 0, default_style())
                    + rows_chars(cs, wi, hi, y as int + 1));
                assert(out@ + rows_chars(cs, wi, hi, y as int) =~= out@ + row_chars(
                    cs, y as int, wi, 0, default_style()) + rows_chars(cs, wi, hi, y as int + 1));
            }
            while x < w
                invariant
                    x <= w,
                    wi == w as int,
                    hi == h as int,
                    cs == content@,
                    y < h,
                    screen_chars(cs, wi, hi) == out@ + row_chars(cs, y as int, wi, x as int, cur)
                        + rows_chars(cs, wi, hi, y as int + 1),
                decreases w - x,
            {
                let ghost out0 = out@;
                let ghost cur0 = cur;
                match lookup(content, x, y) {
                    Some(c) => {
                        if c.style != cur {
                            push_style_chars(&mut out, c.style);
                        }
                        out.push(c.ch);
                        cur = c.style;
                        proof {
                            let chunk = if c.style != cur0 {
                                style_chars(c.style)
                            } else {
                                Seq::<char>::empty()
                            };
                            assert(out@ =~= out0 + chunk + seq![c.ch]);
                            assert(row_chars(cs, y as int, wi, x as int, cur0) == chunk
                                + seq![c.ch] + row_chars(cs, y as int, wi, x as int + 1, c.style));
                            assert(out0 + row_chars(cs, y as int, wi, x as int, cur0) =~= out@
                                + row_chars(cs, y as int, wi, x as int + 1, c.style));
                        }
                    },
                    None => {
                        out.push(' ');
                        cur = Style::default();
                        proof {
                            assert(row_chars(cs, y as int, wi, x as int, cur0) == seq![' ']
                                + row_chars(cs, y as int, wi, x as int + 1, default_style()));
                            assert(out0 + row_chars(cs, y as int, wi, x as int, cur0) =~= out@
                                + row_chars(cs, y as int, wi, x as int + 1, default_style()));
                        }
                    },
                }
                x = x + 1;
            }
            let ghost out5 = out@;
            out.push('\u{1b}');
            out.push('[');
            out.push('0');
            out.push('m');
            out.push('\n');
            proof {
                assert(row_chars(cs, y as int, wi, x as int, cur) == seq!['\u{1b}', '[', '0', 'm', '\n']);
                assert(out5 + row_chars(cs, y as int, wi, x as int, cur) =~= out@);
                assert(screen_chars(cs, wi, hi) == out@ + rows_chars(cs, wi, hi, y as int + 1));
            }
            y = y + 1;
        }
        proof {
            assert(rows_chars(cs, wi, hi, y as int) =~= Seq::<char>::empty());
            assert(out@ + rows_chars(cs, wi, hi, y as int) =~= out@);
        }
        self.output = chars_to_string(&out);
    }
}

/// The remainder of serialized text after the `m` that closes an escape
/// sequence.
pub open spec fn skip_esc(s: Seq<char>) -> Seq<char>
    decreases s.len(),
{
    if s.len() == 0 {
        s
    } else if s[0] == 'm' {
        s.drop_first()
    } else {
        skip_esc(s.drop_first())
    }
}

proof fn lemma_skip_esc_len(s: Seq<char>)
    ensures
        skip_esc(s).len() <= s.len(),
    decreases s.len(),
{
    if s.len() > 0 && s[0] != 'm' {
        lemma_skip_esc_len(s.drop_first());
    }
}

/// The printable characters of serialized text: everything that is not part
/// of an `ESC [ ... m` escape sequence.
pub open spec fn visible(s: Seq<char>) -> Seq<char>
    decreases s.len(),
    via visible_decreases
{
    if s.len() == 0 {
        s
    } else if s[0] == '\u{1b}' {
        visible(skip_esc(s.drop_first()))
    } else {
        seq![s[0]] + visible(s.drop_first())
    }
}

#[via_fn]
proof fn visible_decreases(s: Seq<char>) {
    if s.len() > 0 && s[0] == '\u{1b}' {
        lemma_skip_esc_len(s.drop_first());
    }
}

proof fn lemma_skip_to_m(pre: Seq<char>, rest: Seq<char>)
    requires
        forall|i: int| 0 <= i < pre.len() ==> pre[i] != 'm',
    ensures
        skip_esc(pre + seq!['m'] + rest) == rest,
    decreases pre.len(),
{
    if pre.len() == 0 {
        assert((pre + seq!['m'] + rest)[0] == 'm');
        assert((pre + seq!['m'] + rest).drop_first() =~= rest);
    } else {
        assert((pre + seq!['m'] + rest)[0] == pre[0]);
        assert((pre + seq!['m'] + rest).drop_first() =~= pre.drop_first() + seq!['m'] + rest);
        lemma_skip_to_m(pre.drop_first(), rest);
    }
}

proof fn lemma_visible_sgr(n: u8, rest: Seq<char>)
    ensures
        visible(sgr_chars(n) + rest) == visible(rest),
{
    let pre = seq!['['] + code_chars(n);
    assert(forall|i: int| 0 <= i < pre.len() ==> pre[i] != 'm');
    assert((sgr_chars(n) + rest)[0] == '\u{1b}');
    assert((sgr_chars(n) + rest).drop_first() =~= pre + seq!['m'] + rest);
    lemma_skip_to_m(pre, rest);
}

#[verifier::rlimit(100)]
proof fn lemma_visible_style(st: Style, rest: Seq<char>)
    ensures
        visible(style_chars(st) + rest) == visible(rest),
{
    let p1 = if st.bold { sgr_chars(1) } else { Seq::<char>::empty() };
    let p2 = if st.underline { sgr_chars(4) } else { Seq::<char>::empty() };
    let p3 = if st.dim { sgr_chars(2) } else { Seq::<char>::empty() };
    let p4 = match st.fg {
        Some(c) => match color_code(c, false) {
            Some(n) => sgr_chars(n),
            None => Seq::<char>::empty(),
        },
        None => Seq::<char>::empty(),
    };
    let p5 = match st.bg {
        Some(c) => match color_code(c, true) {
            Some(n) => sgr_chars(n),
            None => Seq::<char>::empty(),
        },
        None => Seq::<char>::empty(),
    };
    let t5 = p5 + rest;
    let t4 = p4 + t5;
    let t3 = p3 + t4;
    let t2 = p2 + t3;
    let t1 = p1 + t2;
    if st.bg is Some && color_code(st.bg->0, true) is Some {
        lemma_visible_sgr(color_code(st.bg->0, true)->0, rest);
    } else {
        assert(t5 =~= rest);
    }
    if st.fg is Some && color_code(st.fg->0, false) is Some {
        lemma_visible_sgr(color_code(st.fg->0, false)->0, t5);
    } else {
        assert(t4 =~= t5);
    }
    if st.dim {
        lemma_visible_sgr(2, t4);
    } else {
        assert(t3 =~= t4);
    }
    if st.underline {
        lemma_visible_sgr(4, t3);
    } else {
        assert(t2 =~= t3);
    }
    if st.bold {
        lemma_visible_sgr(1, t2);
    } else {
        assert(t1 =~= t2);
    }
    assert(style_chars(st) + rest =~= t1);
}

proof fn lemma_find_cell_in(content: Seq<ScreenCell>, x: int, y: int, c: ScreenCell)
    requires
        find_cell(content, x, y) == Some(c),
    ensures
        exists|i: int| 0 <= i < content.len() && content[i] == c,
    decreases content.len(),
{
    if content.len() > 0 {
        if content.last().x == x && content.last().y == y {
            assert(content[content.len() - 1] == c);
        } else {
            lemma_find_cell_in(content.drop_last(), x, y, c);
            let i = choose|i: int| 0 <= i < content.drop_last().len() && content.drop_last()[i] == c;
            assert(content[i] == c);
        }
    }
}

/// The plain characters of row `y` from column `x` on: the painted
/// character, or a space, at each position.
pub open spec fn row_plain(content: Seq<ScreenCell>, y: int, w: int, x: int) -> Seq<char>
    decreases w - x,
{
    if x >= w {
        Seq::<char>::empty()
    } else {
        seq![cell_char(content, x, y)] + row_plain(content, y, w, x + 1)
    }
}

#[verifier::rlimit(100)]
proof fn lemma_row_visible(content: Seq<ScreenCell>, y: int, w: int, x: int, cur: Style, rest: Seq<char>)
    requires
        forall|i: int| 0 <= i < content.len() ==> content[i].ch != '\u{1b}',
    ensures
        visible(row_chars(content, y, w, x, cur) + rest) == row_plain(content, y, w, x)
            + seq!['\n'] + visible(rest),
    decreases w - x,
{
    if x >= w {
        let pre = seq!['[', '0'];
        assert((row_chars(content, y, w, x, cur) + rest)[0] == '\u{1b}');
        assert((row_chars(content, y, w, x, cur) + rest).drop_first() =~= pre + seq!['m'] + (seq!['\n'] + rest));
        lemma_skip_to_m(pre, seq!['\n'] + rest);
        assert((seq!['\n'] + rest)[0] == '\n');
        assert((seq!['\n'] + rest).drop_first() =~= rest);
        assert(visible(seq!['\n'] + rest) =~= seq!['\n'] + visible(rest));
        assert(row_plain(content, y, w, x) + seq!['\n'] + visible(rest) =~= seq!['\n'] + visible(rest));
    } else {
        match find_cell(content, x, y) {
            Some(c) => {
                lemma_find_cell_in(content, x, y, c);
                assert(c.ch != '\u{1b}');
                let chunk = if c.style != cur { style_chars(c.style) } else { Seq::<char>::empty() };
                let rec = row_chars(content, y, w, x + 1, c.style);
                assert(row_chars(content, y, w, x, cur) + rest =~= chunk + (seq![c.ch] + (rec + rest)));
                if c.style != cur {
                    lemma_visible_style(c.style, seq![c.ch] + (rec + rest));
                } else {
                    assert(chunk + (seq![c.ch] + (rec + rest)) =~= seq![c.ch] + (rec + rest));
                }
                assert((seq![c.ch] + (rec + rest))[0] == c.ch);
                assert((seq![c.ch] + (rec + rest)).drop_first() =~= rec + rest);
                lemma_row_visible(content, y, w, x + 1, c.style, rest);
                assert(cell_char(content, x, y) == c.ch);
                assert(row_plain(content, y, w, x) + seq!['\n'] + visible(rest) =~= seq![c.ch]
                    + (row_plain(content, y, w, x + 1) + seq!['\n'] + visible(rest)));
            },
            None => {
                let rec = row_chars(content, y, w, x + 1, default_style());
                assert(row_chars(content, y, w, x, cur) + rest =~= seq![' '] + (rec + rest));
                assert((seq![' '] + (rec + rest))[0] == ' ');
                assert((seq![' '] + (rec + rest)).drop_first() =~= rec + rest);
                lemma_row_visible(content, y, w, x + 1, default_style(), rest);
                assert(cell_char(content, x, y) == ' ');
                assert(row_plain(content, y, w, x) + seq!['\n'] + visible(rest) =~= seq![' ']
                    + (row_plain(content, y, w, x + 1) + seq!['\n'] + visible(rest)));
            },
        }
    }
}

/// The plain rows of the grid, each terminated by one newline.
pub open spec fn newline_joined(content: Seq<ScreenCell>, w: int, h: int, y: int) -> Seq<char>
    decreases h - y,
{
    if y >= h {
        Seq::<char>::empty()
    } else {
        row_plain(content, y, w, 0) + seq!['\n'] + newline_joined(content, w, h, y + 1)
    }
}

proof fn lemma_rows_visible(content: Seq<ScreenCell>, w: int, h: int, y: int)
    requires
        forall|i: int| 0 <= i < content.len() ==> content[i].ch != '\u{1b}',
    ensures
        visible(rows_chars(content, w, h, y)) == newline_joined(content, w, h, y),
    decreases h - y,
{
    if y >= h {
    } else {
        lemma_rows_visible(content, w, h, y + 1);
        lemma_row_visible(content, y, w, 0, default_style(), rows_chars(content, w, h, y + 1));
    }
}

proof fn lemma_row_plain_len(content: Seq<ScreenCell>, y: int, w: int, x: int)
    requires
        x <= w,
    ensures
        row_plain(content, y, w, x).len() == w - x,
    decreases w - x,
{
    if x < w {
        lemma_row_plain_len(content, y, w, x + 1);
    }
}

proof fn lemma_row_plain_no_newline(content: Seq<ScreenCell>, y: int, w: int, x: int)
    requires
        forall|i: int| 0 <= i < content.len() ==> content[i].ch != '\n',
    ensures
        forall|j: int| 0 <= j < row_plain(content, y, w, x).len() ==> row_plain(content, y, w, x)[j] != '\n',
    decreases w - x,
{
    if x < w {
        lemma_row_plain_no_newline(content, y, w, x + 1);
        match find_cell(content, x, y) {
            Some(c) => {
                lemma_find_cell_in(content, x, y, c);
                assert(cell_char(content, x, y) != '\n');
            },
            None => {
                assert(cell_char(content, x, y) == ' ');
            },
        }
        let r = row_plain(content, y, w, x);
        let r1 = row_plain(content, y, w, x + 1);
        assert(r == seq![cell_char(content, x, y)] + r1);
        assert forall|j: int| 0 <= j < r.len() implies r[j] != '\n' by {
            if j == 0 {
                assert(r[0] == cell_char(content, x, y));
            } else {
                assert(r[j] == r1[j - 1]);
            }
        }
    }
}

/// The shape of the serialized grid: ignoring escape sequences, the output
/// for a `w x h` grid is exactly `h` newline-terminated lines, and each line
/// holds exactly `w` printable characters, none of which is a newline.
///
/// The hypothesis on the painted characters is necessary, not convenience:
/// a cell holding a newline inserts an extra line break into any ANSI
/// serialization, and one holding the escape character corrupts the escape
/// accounting, so the line shape cannot hold of such grids.
pub proof fn lemma_serialized_shape(content: Seq<ScreenCell>, w: int, h: int)
    requires
        0 <= w,
        0 <= h,
        forall|i: int| 0 <= i < content.len() ==> content[i].ch != '\u{1b}' && content[i].ch != '\n',
    ensures
        visible(screen_chars(content, w, h)) == newline_joined(content, w, h, 0),
        forall|y: int| 0 <= y < h ==> row_plain(content, y, w, 0).len() == w,
        forall|y: int, j: int| 0 <= y < h && 0 <= j < w ==> row_plain(content, y, w, 0)[j] != '\n',
{
    lemma_rows_visible(content, w, h, 0);
    assert forall|y: int| 0 <= y < h implies row_plain(content, y, w, 0).len() == w by {
        lemma_row_plain_len(content, y, w, 0);
    }
    assert forall|y: int, j: int| 0 <= y < h && 0 <= j < w implies row_plain(content, y, w, 0)[j] != '\n' by {
        lemma_row_plain_len(content, y, w, 0);
        lemma_row_plain_no_newline(content, y, w, 0);
    }
}

} // verus!
