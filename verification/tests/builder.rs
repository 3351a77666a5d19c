use keyvalues::{parse_keyvalues, Error, ErrorKind, KeyValues, Token, TokenKind};

fn text(s: &str, line: usize, column: usize) -> Token {
    Token { kind: TokenKind::Str(s.to_string()), line, column }
}

fn left(line: usize, column: usize) -> Token {
    Token { kind: TokenKind::LeftBrace, line, column }
}

fn right(line: usize, column: usize) -> Token {
    Token { kind: TokenKind::RightBrace, line, column }
}

fn end(line: usize, column: usize) -> Token {
    Token { kind: TokenKind::EOF, line, column }
}

#[test]
fn no_token_at_all_builds_the_empty_tree() {
    assert_eq!(parse_keyvalues(&vec![]), Ok(KeyValues::new()));
    assert_eq!(parse_keyvalues(&vec![end(1, 1)]), Ok(KeyValues::new()));
}

#[test]
fn a_key_and_a_text_are_a_value() {
    let tokens = vec![text("a", 1, 1), text("b", 1, 3), end(1, 4)];
    assert_eq!(parse_keyvalues(&tokens), Ok(KeyValues::from_pair("a", "b")));
}

#[test]
fn the_end_token_is_not_needed_behind_a_complete_entry() {
    let tokens = vec![text("a", 1, 1), text("b", 1, 3)];
    assert_eq!(parse_keyvalues(&tokens), Ok(KeyValues::from_pair("a", "b")));
}

#[test]
fn a_key_and_a_block_are_a_subkey() {
    let tokens = vec![
        text("outer", 1, 1),
        left(1, 7),
        text("a", 2, 1),
        text("b", 2, 3),
        text("inner", 3, 1),
        left(3, 7),
        text("c", 3, 9),
        text("d", 3, 11),
        right(3, 13),
        right(4, 1),
        text("e", 5, 1),
        text("f", 5, 3),
        end(5, 4),
    ];
    let mut inner = KeyValues::new();
    inner.add_value("c", "d");
    let mut outer = KeyValues::new();
    outer.add_value("a", "b");
    outer.add_subkey("inner", &inner);
    let mut expected = KeyValues::new();
    expected.add_subkey("outer", &outer);
    expected.add_value("e", "f");
    assert_eq!(parse_keyvalues(&tokens), Ok(expected));
}

#[test]
fn an_empty_block_is_an_empty_child() {
    let tokens = vec![text("a", 1, 1), left(1, 3), right(1, 5), end(1, 6)];
    let mut expected = KeyValues::new();
    expected.add_subkey("a", &KeyValues::new());
    assert_eq!(parse_keyvalues(&tokens), Ok(expected));
}

#[test]
fn a_later_binding_replaces_an_earlier_one() {
    let tokens = vec![
        text("a", 1, 1),
        text("first", 1, 3),
        text("s", 2, 1),
        left(2, 3),
        text("x", 2, 5),
        text("1", 2, 7),
        right(2, 9),
        text("a", 3, 1),
        text("second", 3, 3),
        text("s", 4, 1),
        left(4, 3),
        text("y", 4, 5),
        text("2", 4, 7),
        right(4, 9),
        end(4, 10),
    ];
    let mut expected = KeyValues::new();
    expected.add_value("a", "second");
    expected.add_subkey("s", &KeyValues::from_pair("y", "2"));
    assert_eq!(parse_keyvalues(&tokens), Ok(expected));
}

#[test]
fn a_key_may_name_a_value_and_a_child() {
    let tokens = vec![
        text("a", 1, 1),
        text("b", 1, 3),
        text("a", 2, 1),
        left(2, 3),
        right(2, 4),
        end(2, 5),
    ];
    let tree = parse_keyvalues(&tokens).unwrap();
    assert_eq!(tree.get::<String>(&"a".to_string()), Some("b".to_string()));
    assert_eq!(tree.get_subkey("a"), Some(&KeyValues::new()));
}

#[test]
fn an_end_token_ends_the_level() {
    let tokens = vec![text("a", 1, 1), text("b", 1, 3), end(1, 4), text("c", 1, 5), right(1, 7)];
    assert_eq!(parse_keyvalues(&tokens), Ok(KeyValues::from_pair("a", "b")));
}

#[test]
fn a_brace_in_place_of_a_key_is_unexpected() {
    let tokens = vec![left(1, 1), text("a", 1, 3), right(1, 5), end(1, 6)];
    assert_eq!(
        parse_keyvalues(&tokens),
        Err(Error { kind: ErrorKind::UnexpectedToken(TokenKind::LeftBrace), line: 1, column: 1 })
    );
    let tokens = vec![text("a", 1, 1), text("b", 1, 3), right(2, 4), end(2, 5)];
    assert_eq!(
        parse_keyvalues(&tokens),
        Err(Error { kind: ErrorKind::UnexpectedToken(TokenKind::RightBrace), line: 2, column: 4 })
    );
}

#[test]
fn a_block_behind_a_block_needs_a_key() {
    let tokens = vec![
        text("a", 1, 1),
        left(1, 3),
        right(1, 4),
        left(1, 6),
        right(1, 7),
        end(1, 8),
    ];
    assert_eq!(
        parse_keyvalues(&tokens),
        Err(Error { kind: ErrorKind::UnexpectedToken(TokenKind::LeftBrace), line: 1, column: 6 })
    );
}

#[test]
fn a_closing_brace_behind_a_key_is_unexpected() {
    let tokens = vec![text("a", 1, 1), right(1, 3), end(1, 4)];
    assert_eq!(
        parse_keyvalues(&tokens),
        Err(Error { kind: ErrorKind::UnexpectedToken(TokenKind::RightBrace), line: 1, column: 3 })
    );
}

#[test]
fn a_key_alone_in_a_block_meets_the_closing_brace() {
    let tokens = vec![text("a", 1, 1), left(1, 3), text("b", 1, 5), right(1, 7), end(1, 8)];
    assert_eq!(
        parse_keyvalues(&tokens),
        Err(Error { kind: ErrorKind::UnexpectedToken(TokenKind::RightBrace), line: 1, column: 7 })
    );
}

#[test]
fn the_end_behind_a_key_is_unexpected() {
    let tokens = vec![text("a", 1, 1), text("b", 1, 3), text("c", 2, 1), end(2, 2)];
    assert_eq!(
        parse_keyvalues(&tokens),
        Err(Error { kind: ErrorKind::UnexpectedEOF, line: 2, column: 2 })
    );
}

#[test]
fn a_key_with_no_token_behind_it_has_no_place_to_report() {
    let tokens = vec![text("a", 1, 1), text("b", 1, 3), text("c", 2, 1)];
    assert_eq!(
        parse_keyvalues(&tokens),
        Err(Error { kind: ErrorKind::UnexpectedEOF, line: 0, column: 0 })
    );
}

#[test]
fn an_open_block_is_reported_at_its_opening_brace() {
    let tokens = vec![
        text("a", 1, 1),
        left(2, 1),
        text("b", 3, 1),
        left(3, 3),
        text("c", 3, 5),
        text("d", 3, 7),
        right(3, 9),
        end(3, 10),
    ];
    assert_eq!(
        parse_keyvalues(&tokens),
        Err(Error { kind: ErrorKind::NoMatchingRightBrace, line: 2, column: 1 })
    );
}

#[test]
fn an_error_inside_a_block_keeps_its_kind_and_place() {
    let tokens = vec![
        text("a", 1, 1),
        left(1, 3),
        text("b", 2, 1),
        left(2, 3),
        left(3, 5),
        right(3, 6),
        right(4, 1),
        right(5, 1),
        end(5, 2),
    ];
    assert_eq!(
        parse_keyvalues(&tokens),
        Err(Error { kind: ErrorKind::UnexpectedToken(TokenKind::LeftBrace), line: 3, column: 5 })
    );
}

#[test]
fn a_closing_brace_matches_the_nearest_open_block() {
    let tokens = vec![
        text("a", 1, 1),
        left(1, 3),
        text("b", 1, 5),
        left(1, 7),
        right(1, 9),
        text("c", 1, 11),
        text("d", 1, 13),
        right(1, 15),
        text("e", 1, 17),
        text("f", 1, 19),
        end(1, 20),
    ];
    let mut a = KeyValues::new();
    a.add_subkey("b", &KeyValues::new());
    a.add_value("c", "d");
    let mut expected = KeyValues::new();
    expected.add_subkey("a", &a);
    expected.add_value("e", "f");
    assert_eq!(parse_keyvalues(&tokens), Ok(expected));
}

#[test]
fn the_first_error_is_the_one_reported() {
    let tokens = vec![
        text("a", 1, 1),
        right(1, 3),
        text("b", 2, 1),
        left(2, 3),
        end(2, 4),
    ];
    assert_eq!(
        parse_keyvalues(&tokens),
        Err(Error { kind: ErrorKind::UnexpectedToken(TokenKind::RightBrace), line: 1, column: 3 })
    );
}
