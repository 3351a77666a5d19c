use keyvalues::{parse_keyvalues, tokenize, Error, ErrorKind, KeyValues, TokenKind};

fn key(s: &str) -> String {
    s.to_string()
}

#[test]
fn two_values_one_of_them_quoted() {
    let tree = KeyValues::from_str("key value\n\"k e y\" valyoo!\n").unwrap();
    assert_eq!(tree.get::<String>(&key("key")), Some(key("value")));
    assert_eq!(tree.get::<String>(&key("k e y")), Some(key("valyoo!")));
    assert_eq!(tree.get_subkey("key"), None);
    let mut expected = KeyValues::new();
    expected.add_value("key", "value");
    expected.add_value("k e y", "valyoo!");
    assert_eq!(tree, expected);
}

#[test]
fn a_material_script() {
    let tree = KeyValues::from_str(
        "LightmappedGeneric\n{\n$basetexture vgui\\logos\\spray_headshot\n$translucent 1\n$decal 1\n$decalscale 0.250\n}",
    )
    .unwrap();
    assert_eq!(tree.get_text(&key("LightmappedGeneric")), None);
    assert_eq!(tree.get_text(&key("$decal")), None);
    let block = tree.get_subkey("LightmappedGeneric").unwrap();
    assert_eq!(
        block.get::<String>(&key("$basetexture")),
        Some(key("vgui\\logos\\spray_headshot"))
    );
    assert_eq!(block.get::<i32>(&key("$translucent")), Some(1));
    assert_eq!(block.get::<i32>(&key("$decal")), Some(1));
    assert_eq!(block.get::<f32>(&key("$decalscale")), Some(0.25));
    assert_eq!(block.get_or_default::<i32>(&key("$nodecal")), 0);
}

#[test]
fn a_key_at_the_end_has_no_value() {
    assert_eq!(
        KeyValues::from_str("key value\nkeey vaalue\nkey?"),
        Err(Error { kind: ErrorKind::UnexpectedEOF, line: 3, column: 5 })
    );
    assert_eq!(
        KeyValues::from_str("lonely"),
        Err(Error { kind: ErrorKind::UnexpectedEOF, line: 1, column: 7 })
    );
    assert_eq!(
        KeyValues::from_str("a b\nc d e\n\n"),
        Err(Error { kind: ErrorKind::UnexpectedEOF, line: 4, column: 1 })
    );
}

#[test]
fn a_block_that_is_not_closed() {
    assert_eq!(
        KeyValues::from_str("key value\nsubkey\n{\nkey value"),
        Err(Error { kind: ErrorKind::NoMatchingRightBrace, line: 3, column: 1 })
    );
    assert_eq!(
        KeyValues::from_str("a { b { c d }"),
        Err(Error { kind: ErrorKind::NoMatchingRightBrace, line: 1, column: 3 })
    );
    assert_eq!(
        KeyValues::from_str("a { b c } d {"),
        Err(Error { kind: ErrorKind::NoMatchingRightBrace, line: 1, column: 13 })
    );
}

#[test]
fn a_closing_brace_without_a_block() {
    assert_eq!(
        KeyValues::from_str("key value\n}\nkeey vaalue"),
        Err(Error { kind: ErrorKind::UnexpectedToken(TokenKind::RightBrace), line: 2, column: 1 })
    );
    assert_eq!(
        KeyValues::from_str("a { b c } }"),
        Err(Error { kind: ErrorKind::UnexpectedToken(TokenKind::RightBrace), line: 1, column: 11 })
    );
    assert_eq!(
        KeyValues::from_str("a }"),
        Err(Error { kind: ErrorKind::UnexpectedToken(TokenKind::RightBrace), line: 1, column: 3 })
    );
}

#[test]
fn a_text_with_an_unmatched_closing_brace_fails_on_some_token() {
    for source in ["}", "a b }", "{ } }", "a { { } } }", "a { b } c d }", "a { b c } } d {"] {
        let error = KeyValues::from_str(source).unwrap_err();
        assert!(matches!(error.kind, ErrorKind::UnexpectedToken(_)), "{}", source);
    }
}

#[test]
fn the_empty_text_is_the_empty_tree() {
    assert_eq!(KeyValues::from_str(""), Ok(KeyValues::new()));
    assert_eq!(KeyValues::from_str(" \n\t "), Ok(KeyValues::new()));
}

#[test]
fn an_open_string_stops_the_read_before_the_builder() {
    assert_eq!(
        KeyValues::from_str("} \"open"),
        Err(Error { kind: ErrorKind::UnterminatedString, line: 1, column: 3 })
    );
}

#[test]
fn keys_and_values_may_be_quoted_or_bare() {
    let tree = KeyValues::from_str("\"a\" \"\"\n\"\" b\n\"c d\"{\"e\"\"f\"}").unwrap();
    assert_eq!(tree.get::<String>(&key("a")), Some(key("")));
    assert_eq!(tree.get::<String>(&key("")), Some(key("b")));
    assert_eq!(tree.get_subkey("c d"), Some(&KeyValues::from_pair("e", "f")));
}

#[test]
fn reading_is_lexing_then_building() {
    for source in ["", "a b", "a { b c }", "a { b", "a }", "a", "{", "a \"b"] {
        let both = match tokenize(source) {
            Ok(tokens) => parse_keyvalues(&tokens),
            Err(e) => Err(e),
        };
        assert_eq!(KeyValues::from_str(source), both, "{}", source);
    }
}

#[test]
fn writing_the_bindings_down_again_gives_the_same_tree() {
    let first = KeyValues::from_str(
        "a 1\nb { c 2 d { } e 3 }\na 4\nf \"5 6\"\nb { c 7 g { h 8 } }",
    )
    .unwrap();
    let again = KeyValues::from_str("f \"5 6\"\nb\n{\n  g\n  {\n    h 8\n  }\n  c 7\n}\na 4\n").unwrap();
    assert_eq!(first, again);

    let mut g = KeyValues::new();
    g.add_value("h", "8");
    let mut b = KeyValues::new();
    b.add_value("c", "7");
    b.add_subkey("g", &g);
    let mut expected = KeyValues::new();
    expected.add_value("a", "4");
    expected.add_value("f", "5 6");
    expected.add_subkey("b", &b);
    assert_eq!(first, expected);
}
