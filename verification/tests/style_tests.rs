use keysheet::style::{color_to_ansi, style_to_ansi, Color, Style};

fn all_named_colors() -> Vec<Color> {
    vec![
        Color::Black,
        Color::Red,
        Color::Green,
        Color::Yellow,
        Color::Blue,
        Color::Magenta,
        Color::Cyan,
        Color::Gray,
        Color::DarkGray,
        Color::LightRed,
        Color::LightGreen,
        Color::LightYellow,
        Color::LightBlue,
        Color::LightMagenta,
        Color::LightCyan,
        Color::White,
    ]
}

#[test]
fn base_color_codes_follow_the_formula() {
    assert_eq!(color_to_ansi(Color::Black, false), Some(30));
    assert_eq!(color_to_ansi(Color::Red, false), Some(31));
    assert_eq!(color_to_ansi(Color::Green, false), Some(32));
    assert_eq!(color_to_ansi(Color::Yellow, false), Some(33));
    assert_eq!(color_to_ansi(Color::Blue, false), Some(34));
    assert_eq!(color_to_ansi(Color::Magenta, false), Some(35));
    assert_eq!(color_to_ansi(Color::Cyan, false), Some(36));
    assert_eq!(color_to_ansi(Color::Gray, false), Some(37));
    assert_eq!(color_to_ansi(Color::Black, true), Some(40));
    assert_eq!(color_to_ansi(Color::Gray, true), Some(47));
}

#[test]
fn bright_color_codes_add_sixty() {
    assert_eq!(color_to_ansi(Color::DarkGray, false), Some(90));
    assert_eq!(color_to_ansi(Color::LightRed, false), Some(91));
    assert_eq!(color_to_ansi(Color::White, false), Some(97));
    assert_eq!(color_to_ansi(Color::DarkGray, true), Some(100));
    assert_eq!(color_to_ansi(Color::White, true), Some(107));
}

#[test]
fn named_color_codes_are_unique_and_stable() {
    let colors = all_named_colors();
    for is_bg in [false, true] {
        let mut seen: Vec<u8> = Vec::new();
        for c in &colors {
            let code = color_to_ansi(*c, is_bg).expect("named color must map");
            assert!(!seen.contains(&code), "duplicate code {}", code);
            seen.push(code);
            // Stable: asking again gives the same code.
            assert_eq!(color_to_ansi(*c, is_bg), Some(code));
        }
    }
}

#[test]
fn unmapped_color_emits_no_code() {
    assert_eq!(color_to_ansi(Color::Other, false), None);
    assert_eq!(color_to_ansi(Color::Other, true), None);
    let style = Style { fg: Some(Color::Other), bg: Some(Color::Other), bold: false, underline: false, dim: false };
    let chars = style_to_ansi(style);
    assert!(chars.is_empty());
}

#[test]
fn style_codes_come_in_fixed_order() {
    let style = Style { fg: Some(Color::Red), bg: Some(Color::Blue), bold: true, underline: true, dim: true };
    let s: String = style_to_ansi(style).into_iter().collect();
    assert_eq!(s, "\u{1b}[1m\u{1b}[4m\u{1b}[2m\u{1b}[31m\u{1b}[44m");
}

#[test]
fn default_style_emits_nothing() {
    let s: String = style_to_ansi(Style::default()).into_iter().collect();
    assert_eq!(s, "");
}
