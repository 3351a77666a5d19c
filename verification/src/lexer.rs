//! The lexer: from text to a sequence of positioned tokens.
//!
//! Braces are tokens of their own where a token starts. A double quote
//! opens a string that runs to the next double quote; a backslash has no
//! special meaning. Any other character that is not white space starts a
//! bare word that runs to the next white space, braces and quotes included.

use vstd::prelude::*;
use crate::error::{Error, ErrorKind, ErrorKindView, ErrorView};
use crate::token::{tokens_view, Token, TokenKind, TokenKindView, TokenView};

verus! {

/// White space: the characters with the Unicode property `White_Space`.
pub open spec fn whitespace(c: char) -> bool {
    ||| '\u{9}' <= c <= '\u{d}'
    ||| c == ' '
    ||| c == '\u{85}'
    ||| c == '\u{a0}'
    ||| c == '\u{1680}'
    ||| '\u{2000}' <= c <= '\u{200a}'
    ||| c == '\u{2028}'
    ||| c == '\u{2029}'
    ||| c == '\u{202f}'
    ||| c == '\u{205f}'
    ||| c == '\u{3000}'
}

/// Tells whether `c` is white space.
pub fn is_whitespace(c: char) -> (r: bool)
    ensures
        r == whitespace(c),
{
    ('\u{9}' <= c && c <= '\u{d}') || c == ' ' || c == '\u{85}' || c == '\u{a0}' || c
        == '\u{1680}' || ('\u{2000}' <= c && c <= '\u{200a}') || c == '\u{2028}' || c
        == '\u{2029}' || c == '\u{202f}' || c == '\u{205f}' || c == '\u{3000}'
}

/// A place in the text: line and column, both counted from 1.
#[derive(Clone, Copy, Debug, PartialEq, Eq)]
pub struct Position {
    pub line: usize,
    pub column: usize,
}

/// One more than `n`, except at the largest number, where the count stays.
pub open spec fn count_up(n: usize) -> usize {
    if n < usize::MAX {
        (n + 1) as usize
    } else {
        n
    }
}

impl Position {
    /// The place of the first character of a text.
    pub open spec fn start() -> Position {
        Position { line: 1, column: 1 }
    }

    /// The place behind the character `c` that stands at this place: a
    /// line feed leads to column 1 of the next line, any other character to
    /// the next column.
    pub open spec fn after(self, c: char) -> Position {
        if c == '\n' {
            Position { line: count_up(self.line), column: 1 }
        } else {
            Position { line: self.line, column: count_up(self.column) }
        }
    }

    /// The place of the character with index `i` in `s`; for `i == s.len()`,
    /// the place behind the last character.
    pub open spec fn at(s: Seq<char>, i: int) -> Position
        decreases i,
    {
        if i <= 0 {
            Position::start()
        } else {
            Position::at(s, i - 1).after(s[i - 1])
        }
    }

    /// Moves over the character `c`.
    pub fn advance(self, c: char) -> (r: Position)
        ensures
            r == self.after(c),
    {
        if c == '\n' {
            Position { line: next(self.line), column: 1 }
        } else {
            Position { line: self.line, column: next(self.column) }
        }
    }
}

/// Counts one up from `n`, and stays at the largest number.
fn next(n: usize) -> (r: usize)
    ensures
        r == count_up(n),
{
    if n < usize::MAX {
        n + 1
    } else {
        n
    }
}

/// The index of the first double quote of `s` at or behind `from`, or
/// `s.len()` if there is none.
pub open spec fn quote_end(s: Seq<char>, from: int) -> int
    decreases s.len() - from,
{
    if from >= s.len() {
        s.len() as int
    } else if s[from] == '"' {
        from
    } else {
        quote_end(s, from + 1)
    }
}

/// The index of the first white space of `s` at or behind `from`, or
/// `s.len()` if there is none.
pub open spec fn word_end(s: Seq<char>, from: int) -> int
    decreases s.len() - from,
{
    if from >= s.len() {
        s.len() as int
    } else if whitespace(s[from]) {
        from
    } else {
        word_end(s, from + 1)
    }
}

/// The end of a scan lies at or behind its start, and within the text.
pub proof fn lemma_scan_end_in_range(s: Seq<char>, from: int)
    requires
        from <= s.len(),
    ensures
        from <= quote_end(s, from) <= s.len(),
        from <= word_end(s, from) <= s.len(),
    decreases s.len() - from,
{
    if from < s.len() {
        lemma_scan_end_in_range(s, from + 1);
    }
}

/// The token of kind `kind` whose first character stands at `at`.
pub open spec fn token_at(kind: TokenKindView, at: Position) -> TokenView {
    TokenView { kind, line: at.line, column: at.column }
}

/// The error for a quoted string that is still open when the text ends,
/// at the place of its opening quote.
pub open spec fn unterminated_string(at: Position) -> ErrorView {
    ErrorView { kind: ErrorKindView::UnterminatedString, line: at.line, column: at.column }
}

/// `rest` with the tokens `first` in front; an error stays as it is.
pub open spec fn prepend(first: Seq<TokenView>, rest: Result<Seq<TokenView>, ErrorView>) -> Result<
    Seq<TokenView>,
    ErrorView,
> {
    match rest {
        Ok(tokens) => Ok(first + tokens),
        Err(e) => Err(e),
    }
}

/// The tokens of `s` from index `i` on, closed by the end-of-input token,
/// or the first lexical error behind `i`.
pub open spec fn lex_from(s: Seq<char>, i: int) -> Result<Seq<TokenView>, ErrorView>
    recommends
        0 <= i,
    decreases s.len() - i,
{
    let here = Position::at(s, i);
    if i >= s.len() {
        Ok(seq![token_at(TokenKindView::EOF, here)])
    } else if s[i] == '{' {
        prepend(seq![token_at(TokenKindView::LeftBrace, here)], lex_from(s, i + 1))
    } else if s[i] == '}' {
        prepend(seq![token_at(TokenKindView::RightBrace, here)], lex_from(s, i + 1))
    } else if s[i] == '"' {
        let close = quote_end(s, i + 1);
        if close >= s.len() {
            Err(unterminated_string(here))
        } else {
            proof {
                lemma_scan_end_in_range(s, i + 1);
            }
            prepend(
                seq![token_at(TokenKindView::Str(s.subrange(i + 1, close)), here)],
                lex_from(s, close + 1),
            )
        }
    } else if whitespace(s[i]) {
        lex_from(s, i + 1)
    } else {
        let end = word_end(s, i + 1);
        proof {
            lemma_scan_end_in_range(s, i + 1);
        }
        prepend(seq![token_at(TokenKindView::Str(s.subrange(i, end)), here)], lex_from(s, end))
    }
}

/// The tokens of the text `s`, or its first lexical error.
pub open spec fn lex(s: Seq<char>) -> Result<Seq<TokenView>, ErrorView> {
    lex_from(s, 0)
}

/// The model of what the lexer returned.
pub open spec fn tokens_result_view(r: Result<Vec<Token>, Error>) -> Result<
    Seq<TokenView>,
    ErrorView,
> {
    match r {
        Ok(tokens) => Ok(tokens_view(tokens@)),
        Err(e) => Err(e@),
    }
}

/// Tokens end in exactly one end-of-input token, and it stands at the
/// place behind the last character of the text.
pub open spec fn closed_by_end(s: Seq<char>, tokens: Seq<TokenView>) -> bool {
    &&& tokens.len() >= 1
    &&& tokens.last() == token_at(TokenKindView::EOF, Position::at(s, s.len() as int))
    &&& forall|j: int| 0 <= j < tokens.len() - 1 ==> (#[trigger] tokens[j]).kind
        != TokenKindView::EOF
}

/// Whatever the lexer gives from an index on ends in exactly one
/// end-of-input token, which stands behind the last character.
proof fn lemma_lex_from_closed_by_end(s: Seq<char>, i: int)
    requires
        0 <= i <= s.len(),
    ensures
        match lex_from(s, i) {
            Ok(tokens) => closed_by_end(s, tokens),
            Err(e) => e.kind == ErrorKindView::UnterminatedString,
        },
    decreases s.len() - i,
{
    if i < s.len() {
        let next = if s[i] == '{' || s[i] == '}' {
            i + 1
        } else if s[i] == '"' {
            quote_end(s, i + 1) + 1
        } else if whitespace(s[i]) {
            i + 1
        } else {
            word_end(s, i + 1)
        };
        lemma_scan_end_in_range(s, i + 1);
        if next <= s.len() {
            lemma_lex_from_closed_by_end(s, next);
            if let Ok(rest) = lex_from(s, next) {
                if let Ok(tokens) = lex_from(s, i) {
                    if tokens != rest {
                        let first = tokens[0];
                        assert(tokens == seq![first] + rest);
                        assert(first.kind != TokenKindView::EOF);
                        assert forall|j: int| 0 <= j < tokens.len() - 1 implies (
                        #[trigger] tokens[j]).kind != TokenKindView::EOF by {
                            if j > 0 {
                                assert(tokens[j] == rest[j - 1]);
                            }
                        }
                    }
                }
            }
        }
    }
}

/// The lexer's tokens end in exactly one end-of-input token, which stands
/// behind the last character; its only error is the unterminated string.
pub proof fn theorem_tokens_closed_by_end(s: Seq<char>)
    ensures
        match lex(s) {
            Ok(tokens) => closed_by_end(s, tokens),
            Err(e) => e.kind == ErrorKindView::UnterminatedString,
        },
{
    lemma_lex_from_closed_by_end(s, 0);
}

/// The characters of `string`, in order.
fn characters(string: &str) -> (chars: Vec<char>)
    ensures
        chars@ == string@,
{
    let mut chars: Vec<char> = Vec::new();
    for c in it: string.chars()
        invariant
            chars@ == it.seq().take(it.index() as int),
    {
        chars.push(c);
    }
    chars
}

/// The text made of the characters from index `from` up to index `to`.
fn text_of(chars: &Vec<char>, from: usize, to: usize) -> (text: String)
    requires
        from <= to <= chars.len(),
    ensures
        text@ == chars@.subrange(from as int, to as int),
{
    let mut text = String::new();
    let mut i: usize = from;
    while i < to
        invariant
            from <= i <= to <= chars.len(),
            text@ == chars@.subrange(from as int, i as int),
        decreases to - i,
    {
        text.push(chars[i]);
        i += 1;
        assert(chars@.subrange(from as int, i as int) == chars@.subrange(
            from as int,
            i - 1,
        ).push(chars@[i - 1]));
    }
    text
}

/// Moves from `from`, inside a quoted string, to its closing quote or to
/// the end of the text, keeping count of lines and columns.
fn eat_string(chars: &Vec<char>, from: usize, at: Position) -> (r: (usize, Position))
    requires
        from <= chars.len(),
        at == Position::at(chars@, from as int),
    ensures
        r.0 == quote_end(chars@, from as int),
        from <= r.0 <= chars.len(),
        r.1 == Position::at(chars@, r.0 as int),
{
    let mut i: usize = from;
    let mut here = at;
    while i < chars.len() && chars[i] != '"'
        invariant
            from <= i <= chars.len(),
            here == Position::at(chars@, i as int),
            quote_end(chars@, from as int) == quote_end(chars@, i as int),
        decreases chars.len() - i,
    {
        here = here.advance(chars[i]);
        i += 1;
    }
    (i, here)
}

/// Moves from `from`, inside a bare word, to the next white space or to
/// the end of the text, keeping count of columns.
fn eat_identifier(chars: &Vec<char>, from: usize, at: Position) -> (r: (usize, Position))
    requires
        from <= chars.len(),
        at == Position::at(chars@, from as int),
    ensures
        r.0 == word_end(chars@, from as int),
        from <= r.0 <= chars.len(),
        r.1 == Position::at(chars@, r.0 as int),
{
    let mut i: usize = from;
    let mut here = at;
    while i < chars.len() && !is_whitespace(chars[i])
        invariant
            from <= i <= chars.len(),
            here == Position::at(chars@, i as int),
            word_end(chars@, from as int) == word_end(chars@, i as int),
        decreases chars.len() - i,
    {
        here = here.advance(chars[i]);
        i += 1;
    }
    (i, here)
}

/// The token of kind `kind` whose first character stands at `at`.
fn add_token(kind: TokenKind, at: Position) -> (token: Token)
    ensures
        token@ == token_at(kind@, at),
{
    Token { kind, line: at.line, column: at.column }
}

/// What one step of the lexer found at an index.
struct Scanned {
    /// The token that starts at the index, if one does.
    token: Option<Token>,
    /// The index at which the next step starts.
    next: usize,
    /// The place of that index.
    place: Position,
}

/// Reads what starts at index `i`: a brace, a quoted string, a bare word,
/// or one character of white space.
fn scan_token(chars: &Vec<char>, i: usize, at: Position) -> (r: Result<Scanned, Error>)
    requires
        i < chars.len(),
        at == Position::at(chars@, i as int),
    ensures
        match r {
            Ok(found) => {
                &&& i < found.next <= chars.len()
                &&& found.place == Position::at(chars@, found.next as int)
                &&& lex_from(chars@, i as int) == prepend(
                    match found.token {
                        Some(token) => seq![token@],
                        None => Seq::empty(),
                    },
                    lex_from(chars@, found.next as int),
                )
            },
            Err(e) => lex_from(chars@, i as int) == Err::<Seq<TokenView>, ErrorView>(e@),
        },
{
    let c = chars[i];
    let behind = at.advance(c);
    proof {
        let rest = lex_from(chars@, i + 1);
        assert(prepend(Seq::empty(), rest) == rest) by {
            if let Ok(tokens) = rest {
                assert(Seq::<TokenView>::empty() + tokens == tokens);
            }
        }
    }
    if c == '{' {
        Ok(Scanned { token: Some(add_token(TokenKind::LeftBrace, at)), next: i + 1, place: behind })
    } else if c == '}' {
        Ok(Scanned { token: Some(add_token(TokenKind::RightBrace, at)), next: i + 1, place: behind })
    } else if c == '"' {
        let (close, at_close) = eat_string(chars, i + 1, behind);
        if close >= chars.len() {
            Err(Error { kind: ErrorKind::UnterminatedString, line: at.line, column: at.column })
        } else {
            let text = text_of(chars, i + 1, close);
            Ok(
                Scanned {
                    token: Some(add_token(TokenKind::Str(text), at)),
                    next: close + 1,
                    place: at_close.advance(chars[close]),
                },
            )
        }
    } else if is_whitespace(c) {
        Ok(Scanned { token: None, next: i + 1, place: behind })
    } else {
        let (end, at_end) = eat_identifier(chars, i + 1, behind);
        let text = text_of(chars, i, end);
        Ok(Scanned { token: Some(add_token(TokenKind::Str(text), at)), next: end, place: at_end })
    }
}

/// Splits `string` into tokens. The last token is the end-of-input token,
/// placed behind the last character. The only error is a quoted string that
/// is not closed, reported at its opening quote. Lines and columns are
/// counted from 1, and a count that has reached `usize::MAX` stays there.
pub fn tokenize(string: &str) -> (r: Result<Vec<Token>, Error>)
    ensures
        tokens_result_view(r) == lex(string@),
{
    let chars = characters(string);
    let mut tokens: Vec<Token> = Vec::new();
    let mut i: usize = 0;
    let mut here = Position { line: 1, column: 1 };
    while i < chars.len()
        invariant
            i <= chars.len(),
            chars@ == string@,
            here == Position::at(chars@, i as int),
            lex(chars@) == prepend(tokens_view(tokens@), lex_from(chars@, i as int)),
        decreases chars.len() - i,
    {
        let ghost before = tokens_view(tokens@);
        match scan_token(&chars, i, here) {
            Ok(found) => {
                let ghost rest = lex_from(chars@, found.next as int);
                match found.token {
                    Some(token) => {
                        let ghost first = seq![token@];
                        tokens.push(token);
                        proof {
                            assert(tokens_view(tokens@) == before + first);
                            if let Ok(more) = rest {
                                assert(before + (first + more) == (before + first) + more);
                            }
                        }
                    },
                    None => {
                        proof {
                            if let Ok(more) = rest {
                                assert(Seq::<TokenView>::empty() + more == more);
                            }
                        }
                    },
                }
                i = found.next;
                here = found.place;
            },
            Err(e) => {
                return Err(e);
            },
        }
    }
    let ghost before = tokens_view(tokens@);
    tokens.push(add_token(TokenKind::EOF, here));
    assert(tokens_view(tokens@) == before + seq![token_at(TokenKindView::EOF, here)]);
    Ok(tokens)
}

} // verus!
