use keysheet::grid::{AnsiBackend, ScreenCell};
use keysheet::style::{Color, Style};

fn styled(fg: Color) -> Style {
    Style { fg: Some(fg), bg: None, bold: false, underline: false, dim: false }
}

fn strip_escapes(s: &str) -> String {
    let mut out = String::new();
    let mut chars = s.chars();
    while let Some(c) = chars.next() {
        if c == '\u{1b}' {
            for d in chars.by_ref() {
                if d == 'm' {
                    break;
                }
            }
        } else {
            out.push(c);
        }
    }
    out
}

#[test]
fn zero_width_or_height_is_a_silent_no_op() {
    let mut b = AnsiBackend::new(0, 5);
    b.draw(&vec![ScreenCell { x: 0, y: 0, ch: 'x', style: Style::default() }]);
    assert_eq!(b.get_output(), "");
    let mut b = AnsiBackend::new(5, 0);
    b.draw(&Vec::new());
    assert_eq!(b.get_output(), "");
}

#[test]
fn unpainted_positions_default_to_spaces() {
    let mut b = AnsiBackend::new(3, 2);
    b.draw(&Vec::new());
    assert_eq!(b.get_output(), "   \u{1b}[0m\n   \u{1b}[0m\n");
}

#[test]
fn output_has_height_lines_of_width_printable_chars() {
    let mut b = AnsiBackend::new(4, 3);
    let cells = vec![
        ScreenCell { x: 0, y: 0, ch: 'a', style: styled(Color::Red) },
        ScreenCell { x: 1, y: 0, ch: 'b', style: styled(Color::Red) },
        ScreenCell { x: 3, y: 1, ch: 'c', style: styled(Color::Blue) },
        ScreenCell { x: 2, y: 2, ch: 'd', style: Style::default() },
    ];
    b.draw(&cells);
    let plain = strip_escapes(b.get_output());
    let lines: Vec<&str> = plain.split_terminator('\n').collect();
    assert_eq!(lines.len(), 3);
    for line in &lines {
        assert_eq!(line.chars().count(), 4);
    }
    assert_eq!(lines[0], "ab  ");
    assert_eq!(lines[1], "   c");
    assert_eq!(lines[2], "  d ");
}

#[test]
fn style_codes_are_emitted_only_on_change() {
    let mut b = AnsiBackend::new(3, 1);
    let red = styled(Color::Red);
    let cells = vec![
        ScreenCell { x: 0, y: 0, ch: 'a', style: red },
        ScreenCell { x: 1, y: 0, ch: 'b', style: red },
        ScreenCell { x: 2, y: 0, ch: 'c', style: styled(Color::Blue) },
    ];
    b.draw(&cells);
    assert_eq!(b.get_output(), "\u{1b}[31mab\u{1b}[34mc\u{1b}[0m\n");
}

#[test]
fn every_row_ends_with_a_reset_and_newline() {
    let mut b = AnsiBackend::new(1, 2);
    b.draw(&vec![ScreenCell { x: 0, y: 1, ch: 'z', style: styled(Color::Green) }]);
    assert_eq!(b.get_output(), " \u{1b}[0m\n\u{1b}[32mz\u{1b}[0m\n");
}

#[test]
fn gap_resets_the_running_style() {
    // An unpainted position is a default-styled blank cell, so a styled
    // cell after a gap re-emits its codes.
    let mut b = AnsiBackend::new(3, 1);
    let red = styled(Color::Red);
    let cells = vec![
        ScreenCell { x: 0, y: 0, ch: 'a', style: red },
        ScreenCell { x: 2, y: 0, ch: 'b', style: red },
    ];
    b.draw(&cells);
    assert_eq!(b.get_output(), "\u{1b}[31ma \u{1b}[31mb\u{1b}[0m\n");
}

#[test]
fn later_writes_to_one_position_win() {
    let mut b = AnsiBackend::new(1, 1);
    let cells = vec![
        ScreenCell { x: 0, y: 0, ch: 'a', style: Style::default() },
        ScreenCell { x: 0, y: 0, ch: 'b', style: Style::default() },
    ];
    b.draw(&cells);
    assert_eq!(b.get_output(), "b\u{1b}[0m\n");
}

#[test]
fn new_backend_reports_its_size_and_empty_output() {
    let b = AnsiBackend::new(7, 9);
    assert_eq!(b.width, 7);
    assert_eq!(b.height, 9);
    assert_eq!(b.get_output(), "");
}
