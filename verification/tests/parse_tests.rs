use keysheet::parse::{parse_action_text, ValueKind};
use keysheet::tokens::{sequence_tokens, Punct, Token};

fn sym(s: &str) -> Token {
    Token::Symbol(s.to_string())
}

fn texts(tokens: &[Token]) -> Vec<String> {
    tokens.iter().map(|t| keysheet::tokens::token_string(t)).collect()
}

fn assert_tokens(tokens: &[Token], expected: &[Token]) {
    assert_eq!(tokens.len(), expected.len(), "got {:?}", texts(tokens));
    for (a, b) in tokens.iter().zip(expected.iter()) {
        assert!(keysheet::tokens::token_matches(a, b), "got {:?}", texts(tokens));
    }
}

#[test]
fn parses_a_plain_action_list() {
    let v = parse_action_text("[Quit]").expect("must parse");
    match &v.kind {
        ValueKind::List(items) => {
            assert_eq!(items.len(), 1);
            match &items[0].kind {
                ValueKind::Term(t) => assert_eq!(t, "Quit"),
                _ => panic!("expected a term"),
            }
        },
        _ => panic!("expected a list"),
    }
}

#[test]
fn tokenizes_a_named_tuple_action() {
    let tokens = sequence_tokens("[SwitchToMode(Normal)]");
    assert_tokens(
        &tokens,
        &[
            sym("SwitchToMode"),
            Token::Syntax(Punct::LParen),
            sym("Normal"),
            Token::Syntax(Punct::RParen),
        ],
    );
}

#[test]
fn tokenizes_two_actions_with_a_separator() {
    let tokens = sequence_tokens("[Resize(Increase), Quit]");
    assert_tokens(
        &tokens,
        &[
            sym("Resize"),
            Token::Syntax(Punct::LParen),
            sym("Increase"),
            Token::Syntax(Punct::RParen),
            Token::Syntax(Punct::Comma),
            sym("Quit"),
        ],
    );
}

#[test]
fn tokenizes_a_record_like_action() {
    let tokens = sequence_tokens("[Run(RunCommand { command: \"ls\", args: [\"-l\"] })]");
    assert_tokens(
        &tokens,
        &[
            sym("Run"),
            Token::Syntax(Punct::LParen),
            sym("RunCommand"),
            sym("command"),
            Token::Syntax(Punct::Colon),
            sym("\"ls\""),
            Token::Syntax(Punct::Comma),
            sym("args"),
            Token::Syntax(Punct::Colon),
            Token::Syntax(Punct::LBracket),
            sym("\"-l\""),
            Token::Syntax(Punct::RBracket),
            Token::Syntax(Punct::RParen),
        ],
    );
}

#[test]
fn set_elements_are_parsed_but_not_emitted() {
    let v = parse_action_text("{a, b}").expect("must parse");
    match &v.kind {
        ValueKind::SetOf(items) => assert_eq!(items.len(), 2),
        _ => panic!("expected a set"),
    }
    let tokens = sequence_tokens("[Choose({a, b})]");
    assert_tokens(
        &tokens,
        &[sym("Choose"), Token::Syntax(Punct::LParen), Token::Syntax(Punct::RParen)],
    );
}

#[test]
fn malformed_text_falls_back_to_one_raw_symbol() {
    let tokens = sequence_tokens("[Oops");
    assert_tokens(&tokens, &[sym("[Oops")]);
    let tokens = sequence_tokens("not [a] single value");
    assert_tokens(&tokens, &[sym("not [a] single value")]);
}

#[test]
fn a_bare_atom_always_parses_as_a_term() {
    let v = parse_action_text("Quit").expect("a bare atom is always accepted");
    match &v.kind {
        ValueKind::Term(t) => assert_eq!(t, "Quit"),
        _ => panic!("expected a term"),
    }
}

#[test]
fn malformed_text_reports_a_parse_error() {
    assert!(parse_action_text("[Oops").is_err());
    assert!(parse_action_text("").is_err());
    assert!(parse_action_text("[a,b]").is_err());
}

#[test]
fn unnamed_map_parses_entries_in_order() {
    let v = parse_action_text("{x: 1, y: 2}").expect("must parse");
    match &v.kind {
        ValueKind::MapOf(entries) => {
            assert_eq!(entries.len(), 2);
            assert_eq!(entries[0].key, "x");
            assert_eq!(entries[1].key, "y");
        },
        _ => panic!("expected a map"),
    }
}
