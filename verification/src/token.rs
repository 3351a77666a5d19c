//! Lexical units of the key/value text format.

use vstd::prelude::*;

verus! {

/// What a token is. Quoted and bare text both become `Str`; the quotes of a
/// quoted string are not part of its text.
#[derive(Debug, PartialEq, Eq)]
pub enum TokenKind {
    LeftBrace,
    RightBrace,
    Str(String),
    EOF,
}

/// A classified piece of the input together with the 1-based line and
/// column of its first character.
#[derive(Debug, PartialEq, Eq)]
pub struct Token {
    pub kind: TokenKind,
    pub line: usize,
    pub column: usize,
}

/// Mathematical model of a [`TokenKind`]: text is a sequence of characters.
pub ghost enum TokenKindView {
    LeftBrace,
    RightBrace,
    Str(Seq<char>),
    EOF,
}

/// Mathematical model of a [`Token`].
pub ghost struct TokenView {
    pub kind: TokenKindView,
    pub line: usize,
    pub column: usize,
}

impl View for TokenKind {
    type V = TokenKindView;

    open spec fn view(&self) -> TokenKindView {
        match *self {
            TokenKind::LeftBrace => TokenKindView::LeftBrace,
            TokenKind::RightBrace => TokenKindView::RightBrace,
            TokenKind::Str(s) => TokenKindView::Str(s@),
            TokenKind::EOF => TokenKindView::EOF,
        }
    }
}

impl View for Token {
    type V = TokenView;

    open spec fn view(&self) -> TokenView {
        TokenView { kind: self.kind@, line: self.line, column: self.column }
    }
}

/// The models of a sequence of tokens, in order.
pub open spec fn tokens_view(tokens: Seq<Token>) -> Seq<TokenView> {
    Seq::new(tokens.len(), |i: int| tokens[i]@)
}

impl Clone for TokenKind {
    fn clone(&self) -> (r: Self)
        ensures
            r == *self,
    {
        match self {
            TokenKind::LeftBrace => TokenKind::LeftBrace,
            TokenKind::RightBrace => TokenKind::RightBrace,
            TokenKind::Str(s) => TokenKind::Str(s.clone()),
            TokenKind::EOF => TokenKind::EOF,
        }
    }
}

impl Clone for Token {
    fn clone(&self) -> (r: Self)
        ensures
            r == *self,
    {
        Token { kind: self.kind.clone(), line: self.line, column: self.column }
    }
}

} // verus!
