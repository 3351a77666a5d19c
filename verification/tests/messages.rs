use keyvalues::{Error, ErrorKind, KeyValues, TokenKind};

fn at(kind: ErrorKind, line: usize, column: usize) -> Error {
    Error { kind, line, column }
}

#[test]
fn a_message_names_the_problem_the_line_and_the_column() {
    assert_eq!(
        at(ErrorKind::UnterminatedString, 3, 14).to_string(),
        "Unterminated string on line 3, column 14"
    );
    assert_eq!(
        at(ErrorKind::NoMatchingRightBrace, 120, 7).to_string(),
        "No matching } on line 120, column 7"
    );
    assert_eq!(
        at(ErrorKind::UnexpectedEOF, 1, 1).to_string(),
        "Unexpected End of File on line 1, column 1"
    );
    assert_eq!(
        at(ErrorKind::InvalidEscape('q'), 2, 5).to_string(),
        "Invalid escape sequence '\\q' on line 2, column 5"
    );
    assert_eq!(
        at(ErrorKind::IoError("no such file".to_string()), 0, 0).to_string(),
        "IO Error 'no such file' on line 0, column 0"
    );
}

#[test]
fn a_message_shows_the_unexpected_token() {
    assert_eq!(
        at(ErrorKind::UnexpectedToken(TokenKind::LeftBrace), 1, 2).to_string(),
        "Unexpected { on line 1, column 2"
    );
    assert_eq!(
        at(ErrorKind::UnexpectedToken(TokenKind::RightBrace), 2, 1).to_string(),
        "Unexpected } on line 2, column 1"
    );
    assert_eq!(
        at(ErrorKind::UnexpectedToken(TokenKind::Str("word".to_string())), 10, 10).to_string(),
        "Unexpected word on line 10, column 10"
    );
    assert_eq!(
        at(ErrorKind::UnexpectedToken(TokenKind::EOF), 9, 99).to_string(),
        "Unexpected EOF on line 9, column 99"
    );
}

#[test]
fn numbers_are_written_in_decimal() {
    assert_eq!(
        at(ErrorKind::UnexpectedEOF, 0, 9).to_string(),
        "Unexpected End of File on line 0, column 9"
    );
    assert_eq!(
        at(ErrorKind::UnexpectedEOF, 10, 1005).to_string(),
        "Unexpected End of File on line 10, column 1005"
    );
    assert_eq!(
        at(ErrorKind::UnexpectedEOF, 4294967295, 1234567890).to_string(),
        "Unexpected End of File on line 4294967295, column 1234567890"
    );
    assert_eq!(
        at(ErrorKind::UnexpectedEOF, usize::MAX, 1).to_string(),
        format!("Unexpected End of File on line {}, column 1", usize::MAX)
    );
}

#[test]
fn the_message_of_a_failed_read() {
    let error = KeyValues::from_str("key value\n}\nkeey vaalue").unwrap_err();
    assert_eq!(error.to_string(), "Unexpected } on line 2, column 1");
    let error = KeyValues::from_str("a \"b").unwrap_err();
    assert_eq!(error.to_string(), "Unterminated string on line 1, column 3");
}
