//! Positioned errors shared by the lexer and the tree builder.

use vstd::prelude::*;
use vstd::string::StringExecFns;
use crate::text::{decimal, push_decimal};
use crate::token::{TokenKind, TokenKindView};

verus! {

/// What went wrong.
#[derive(Debug, PartialEq, Eq)]
pub enum ErrorKind {
    /// A quoted string is still open when the input ends.
    UnterminatedString,
    /// A token stands where neither a key nor a value or block may stand.
    UnexpectedToken(TokenKind),
    /// A block was opened and never closed.
    NoMatchingRightBrace,
    /// Kept for escape sequences in quoted strings; never raised, since
    /// a backslash has no special meaning to the lexer.
    InvalidEscape(char),
    /// The input ends right after a key.
    UnexpectedEOF,
    /// The text could not be obtained at all; holds the reader's message.
    /// Neither the lexer nor the builder raises it.
    IoError(String),
}

/// One problem at one position. `line` and `column` are those of the
/// offending token, and 0 where no token is there to give them.
#[derive(Debug, PartialEq, Eq)]
pub struct Error {
    pub kind: ErrorKind,
    pub line: usize,
    pub column: usize,
}

/// Mathematical model of an [`ErrorKind`].
pub ghost enum ErrorKindView {
    UnterminatedString,
    UnexpectedToken(TokenKindView),
    NoMatchingRightBrace,
    InvalidEscape(char),
    UnexpectedEOF,
    IoError(Seq<char>),
}

/// Mathematical model of an [`Error`].
pub ghost struct ErrorView {
    pub kind: ErrorKindView,
    pub line: usize,
    pub column: usize,
}

impl View for ErrorKind {
    type V = ErrorKindView;

    open spec fn view(&self) -> ErrorKindView {
        match *self {
            ErrorKind::UnterminatedString => ErrorKindView::UnterminatedString,
            ErrorKind::UnexpectedToken(t) => ErrorKindView::UnexpectedToken(t@),
            ErrorKind::NoMatchingRightBrace => ErrorKindView::NoMatchingRightBrace,
            ErrorKind::InvalidEscape(c) => ErrorKindView::InvalidEscape(c),
            ErrorKind::UnexpectedEOF => ErrorKindView::UnexpectedEOF,
            ErrorKind::IoError(m) => ErrorKindView::IoError(m@),
        }
    }
}

impl View for Error {
    type V = ErrorView;

    open spec fn view(&self) -> ErrorView {
        ErrorView { kind: self.kind@, line: self.line, column: self.column }
    }
}

/// What a token of kind `kind` looks like in a message.
pub open spec fn token_text(kind: TokenKindView) -> Seq<char> {
    match kind {
        TokenKindView::LeftBrace => "{"@,
        TokenKindView::RightBrace => "}"@,
        TokenKindView::Str(text) => text,
        TokenKindView::EOF => "EOF"@,
    }
}

/// What a message says of an error of kind `kind`.
pub open spec fn kind_text(kind: ErrorKindView) -> Seq<char> {
    match kind {
        ErrorKindView::UnterminatedString => "Unterminated string"@,
        ErrorKindView::UnexpectedToken(token) => "Unexpected "@ + token_text(token),
        ErrorKindView::NoMatchingRightBrace => "No matching }"@,
        ErrorKindView::InvalidEscape(c) => "Invalid escape sequence '\\"@.push(c) + "'"@,
        ErrorKindView::UnexpectedEOF => "Unexpected End of File"@,
        ErrorKindView::IoError(message) => "IO Error '"@ + message + "'"@,
    }
}

/// The message for the error `e`: what went wrong, then the line and the
/// column.
pub open spec fn message(e: ErrorView) -> Seq<char> {
    kind_text(e.kind) + " on line "@ + decimal(e.line as nat) + ", column "@ + decimal(
        e.column as nat,
    )
}

impl Error {
    /// The message for this error, such as `Unexpected } on line 2, column 1`.
    pub fn to_string(&self) -> (r: String)
        ensures
            r@ == message(self@),
    {
        let mut text = String::new();
        match &self.kind {
            ErrorKind::UnterminatedString => {
                text.append("Unterminated string");
            },
            ErrorKind::UnexpectedToken(token) => {
                text.append("Unexpected ");
                match token {
                    TokenKind::LeftBrace => {
                        text.append("{");
                    },
                    TokenKind::RightBrace => {
                        text.append("}");
                    },
                    TokenKind::Str(word) => {
                        text.append(word.as_str());
                    },
                    TokenKind::EOF => {
                        text.append("EOF");
                    },
                }
            },
            ErrorKind::NoMatchingRightBrace => {
                text.append("No matching }");
            },
            ErrorKind::InvalidEscape(c) => {
                text.append("Invalid escape sequence '\\");
                text.push(*c);
                text.append("'");
            },
            ErrorKind::UnexpectedEOF => {
                text.append("Unexpected End of File");
            },
            ErrorKind::IoError(message) => {
                text.append("IO Error '");
                text.append(message.as_str());
                text.append("'");
            },
        }
        assert(text@ == kind_text(self.kind@));
        text.append(" on line ");
        push_decimal(&mut text, self.line);
        text.append(", column ");
        push_decimal(&mut text, self.column);
        text
    }
}

} // verus!
