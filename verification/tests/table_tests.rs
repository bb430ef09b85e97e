use keysheet::classify::{classified_rows, classify, Binding, ModeBindings};
use keysheet::diff::styled_line;
use keysheet::keys::{key_to_parts, Key};
use keysheet::layout::{calculate_column_widths, table_rows};
use keysheet::style::Color;
use keysheet::tokens::{Punct, Token};

fn binding(key: Key, actions: &str) -> Binding {
    Binding { key, actions: actions.to_string() }
}

fn mode(name: &str, bindings: Vec<Binding>) -> ModeBindings {
    ModeBindings { mode: name.to_string(), bindings }
}

#[test]
fn key_renders_as_three_parts() {
    let p = key_to_parts(&Key::Ctrl('g'));
    assert_eq!((p.modifier.as_str(), p.separator.as_str(), p.base.as_str()), ("Ctrl", "+", "g"));
    let p = key_to_parts(&Key::Alt('←'));
    assert_eq!((p.modifier.as_str(), p.separator.as_str(), p.base.as_str()), ("Alt", "+", "←"));
    let p = key_to_parts(&Key::Char('\n'));
    assert_eq!((p.modifier.as_str(), p.separator.as_str(), p.base.as_str()), ("", "", "Enter"));
    let p = key_to_parts(&Key::Char(' '));
    assert_eq!(p.base.as_str(), "Space");
    let p = key_to_parts(&Key::Char('x'));
    assert_eq!(p.base.as_str(), "x");
    let p = key_to_parts(&Key::Named("Left".to_string()));
    assert_eq!((p.modifier.as_str(), p.separator.as_str(), p.base.as_str()), ("", "", "Left"));
}

#[test]
fn binding_in_two_or_more_other_modes_is_shared() {
    let kb = vec![
        mode("A", vec![binding(Key::Ctrl('p'), "[Quit]")]),
        mode("B", vec![binding(Key::Ctrl('p'), "[Quit]")]),
        mode("C", vec![binding(Key::Ctrl('p'), "[Quit]")]),
    ];
    let (exclusive, shared) = classify(&kb, &"A".to_string());
    assert_eq!(exclusive.len(), 0);
    assert_eq!(shared.len(), 1);
    assert_eq!(shared[0].actions, "[Quit]");
}

#[test]
fn binding_in_only_one_other_mode_stays_exclusive() {
    let kb = vec![
        mode("A", vec![binding(Key::Ctrl('p'), "[Quit]")]),
        mode("B", vec![binding(Key::Ctrl('p'), "[Quit]")]),
        mode("C", vec![binding(Key::Ctrl('p'), "[Detach]")]),
    ];
    let (exclusive, shared) = classify(&kb, &"A".to_string());
    assert_eq!(exclusive.len(), 1);
    assert_eq!(shared.len(), 0);
}

#[test]
fn binding_in_no_other_mode_stays_exclusive() {
    let kb = vec![mode("A", vec![binding(Key::Char('q'), "[Quit]")])];
    let (exclusive, shared) = classify(&kb, &"A".to_string());
    assert_eq!(exclusive.len(), 1);
    assert_eq!(shared.len(), 0);
}

#[test]
fn absent_active_mode_yields_empty_panes() {
    let kb = vec![mode("B", vec![binding(Key::Char('q'), "[Quit]")])];
    let (exclusive, shared) = classify(&kb, &"A".to_string());
    assert_eq!(exclusive.len(), 0);
    assert_eq!(shared.len(), 0);
    let empty: Vec<Binding> = Vec::new();
    let (rows, tokens) = table_rows(&empty);
    assert_eq!(rows.len(), 0);
    assert_eq!(tokens.len(), 0);
}

#[test]
fn classifier_output_is_deterministic() {
    let kb = vec![
        mode("A", vec![
            binding(Key::Char('b'), "[Two]"),
            binding(Key::Char('a'), "[Two]"),
            binding(Key::Char('c'), "[One]"),
        ]),
    ];
    let first = classified_rows(&kb, &"A".to_string());
    let second = classified_rows(&kb, &"A".to_string());
    let order = |rows: &Vec<Binding>| {
        rows.iter().map(|b| b.actions.clone()).collect::<Vec<_>>()
    };
    assert_eq!(order(&first.0), order(&second.0));
    assert_eq!(order(&first.1), order(&second.1));
}

#[test]
fn rows_sort_by_action_text_then_key_text() {
    let kb = vec![
        mode("A", vec![
            binding(Key::Char('b'), "[Two]"),
            binding(Key::Char('a'), "[Two]"),
            binding(Key::Char('c'), "[One]"),
        ]),
    ];
    let (exclusive, _) = classified_rows(&kb, &"A".to_string());
    let summary: Vec<(String, String)> = exclusive
        .iter()
        .map(|b| {
            let p = key_to_parts(&b.key);
            (b.actions.clone(), p.base)
        })
        .collect();
    assert_eq!(
        summary,
        vec![
            ("[One]".to_string(), "c".to_string()),
            ("[Two]".to_string(), "a".to_string()),
            ("[Two]".to_string(), "b".to_string()),
        ]
    );
}

#[test]
fn prefix_action_sorts_before_its_extension() {
    // Flattened token texts "A" and "A, B" order the one-action row first;
    // the raw dump texts "[A]" and "[A, B]" would order them the other way
    // around at the byte level.
    let kb = vec![
        mode("M", vec![
            binding(Key::Char('x'), "[A, B]"),
            binding(Key::Char('y'), "[A]"),
        ]),
    ];
    let (exclusive, _) = classified_rows(&kb, &"M".to_string());
    let order: Vec<String> = exclusive.iter().map(|b| b.actions.clone()).collect();
    assert_eq!(order, vec!["[A]".to_string(), "[A, B]".to_string()]);
}

#[test]
fn connector_glyphs_for_a_run_of_equal_actions() {
    let bindings = vec![
        binding(Key::Char('a'), "[X]"),
        binding(Key::Char('b'), "[X]"),
        binding(Key::Char('c'), "[X]"),
        binding(Key::Char('d'), "[Y]"),
    ];
    let (rows, _) = table_rows(&bindings);
    let glyphs: Vec<String> = rows.iter().map(|r| r[3].spans[0].text.clone()).collect();
    assert_eq!(glyphs, vec!["┳", "┫", "┛", "━"]);
}

#[test]
fn repeated_action_text_cell_is_empty() {
    let bindings = vec![
        binding(Key::Char('a'), "[X]"),
        binding(Key::Char('b'), "[X]"),
    ];
    let (rows, _) = table_rows(&bindings);
    assert_eq!(rows[0][4].spans.len(), 1);
    assert_eq!(rows[0][4].spans[0].text, "X");
    assert_eq!(rows[0][4].width, 1);
    assert_eq!(rows[1][4].spans.len(), 0);
    assert_eq!(rows[1][4].width, 0);
}

#[test]
fn cell_widths_use_display_width_not_byte_length() {
    // A fullwidth character occupies two columns but three bytes.
    let bindings = vec![binding(Key::Char('你'), "[X]")];
    let (rows, _) = table_rows(&bindings);
    assert_eq!(rows[0][2].spans[0].text, "你");
    assert_eq!(rows[0][2].width, 2);
    // The key cells of Ctrl+a: "Ctrl", "+", "a".
    let bindings = vec![binding(Key::Ctrl('a'), "[X]")];
    let (rows, _) = table_rows(&bindings);
    let widths: Vec<usize> = rows[0].iter().map(|c| c.width).collect();
    assert_eq!(widths, vec![4, 1, 1, 1, 1]);
}

#[test]
fn repeated_modifier_is_dimmed_on_the_second_row() {
    let bindings = vec![
        binding(Key::Ctrl('a'), "[X]"),
        binding(Key::Ctrl('b'), "[Y]"),
    ];
    let (rows, _) = table_rows(&bindings);
    assert_eq!(rows[0][0].spans[0].style.fg, Some(Color::White));
    assert_eq!(rows[1][0].spans[0].style.fg, Some(Color::DarkGray));
    // The separator is always dimmed, the base always bright.
    assert_eq!(rows[0][1].spans[0].style.fg, Some(Color::DarkGray));
    assert_eq!(rows[0][2].spans[0].style.fg, Some(Color::White));
}

#[test]
fn diff_dims_the_common_prefix_only() {
    let prev = vec![
        Token::Symbol("Resize".to_string()),
        Token::Syntax(Punct::LParen),
        Token::Symbol("Left".to_string()),
        Token::Syntax(Punct::RParen),
    ];
    let cur = vec![
        Token::Symbol("Resize".to_string()),
        Token::Syntax(Punct::LParen),
        Token::Symbol("Right".to_string()),
        Token::Syntax(Punct::RParen),
    ];
    let spans = styled_line(&cur, &prev);
    let fgs: Vec<Option<Color>> = spans.iter().map(|s| s.style.fg).collect();
    assert_eq!(
        fgs,
        vec![
            Some(Color::DarkGray),
            Some(Color::DarkGray),
            Some(Color::White),
            Some(Color::DarkGray),
        ]
    );
    let texts: Vec<String> = spans.iter().map(|s| s.text.clone()).collect();
    assert_eq!(texts, vec!["Resize", "(", "Right", ")"]);
}

#[test]
fn diff_never_returns_to_dim_after_divergence() {
    let prev = vec![
        Token::Symbol("A".to_string()),
        Token::Symbol("B".to_string()),
        Token::Symbol("C".to_string()),
    ];
    let cur = vec![
        Token::Symbol("A".to_string()),
        Token::Symbol("X".to_string()),
        Token::Symbol("C".to_string()),
    ];
    let spans = styled_line(&cur, &prev);
    let fgs: Vec<Option<Color>> = spans.iter().map(|s| s.style.fg).collect();
    // C matches again after the divergence, but stays undimmed.
    assert_eq!(fgs, vec![Some(Color::DarkGray), Some(Color::White), Some(Color::White)]);
}

#[test]
fn column_widths_are_per_column_maxima() {
    let data = vec![vec![1, 5], vec![3], vec![2, 2, 7]];
    assert_eq!(calculate_column_widths(&data), vec![3, 5, 7]);
    let empty: Vec<Vec<usize>> = Vec::new();
    assert_eq!(calculate_column_widths(&empty), Vec::<usize>::new());
}
