//! The tree builder: from a sequence of tokens to a tree, or to the first
//! structural error.
//!
//! A level of the tree is a run of entries. An entry is a key followed by a
//! text value, or a key followed by a block in braces that holds the entries
//! of a child. The end-of-input token ends a level.

use vstd::prelude::*;
use crate::error::{Error, ErrorKind, ErrorKindView, ErrorView};
use crate::token::{tokens_view, Token, TokenKind, TokenKindView, TokenView};
use crate::tree::{KeyValues, Tree};

verus! {

/// The error for a token that stands where it may not: it carries the
/// token's kind and position.
pub open spec fn unexpected_token(t: TokenView) -> ErrorView {
    ErrorView { kind: ErrorKindView::UnexpectedToken(t.kind), line: t.line, column: t.column }
}

/// The error for a block that is never closed, at the opening brace `t`.
pub open spec fn unclosed_brace(t: TokenView) -> ErrorView {
    ErrorView { kind: ErrorKindView::NoMatchingRightBrace, line: t.line, column: t.column }
}

/// The error for an input that ends right after a key, at the end-of-input
/// token `t`.
pub open spec fn unexpected_end(t: TokenView) -> ErrorView {
    ErrorView { kind: ErrorKindView::UnexpectedEOF, line: t.line, column: t.column }
}

/// The error for a key that is the very last token, with not even an
/// end-of-input token behind it: there is no position to report.
pub open spec fn out_of_tokens() -> ErrorView {
    ErrorView { kind: ErrorKindView::UnexpectedEOF, line: 0, column: 0 }
}

/// The closing brace that matches a block whose content starts at `from`,
/// looked for below `end`, when `depth` nested blocks are open at `from`:
/// an opening brace adds one to the depth, a closing brace at depth 0 is the
/// match, and any other closing brace takes one off the depth.
pub open spec fn matching_brace(tokens: Seq<TokenView>, from: int, end: int, depth: nat) -> Option<
    int,
>
    recommends
        0 <= from,
        end <= tokens.len(),
    decreases end - from,
{
    if from >= end {
        None
    } else {
        match tokens[from].kind {
            TokenKindView::RightBrace => if depth == 0 {
                Some(from)
            } else {
                matching_brace(tokens, from + 1, end, (depth - 1) as nat)
            },
            TokenKindView::LeftBrace => matching_brace(tokens, from + 1, end, depth + 1),
            _ => matching_brace(tokens, from + 1, end, depth),
        }
    }
}

/// What building one level gives, reading keys from `pos` up to `end`, when
/// the entries read so far have given `acc`.
///
/// * At `end`, or at an end-of-input token, the level is complete.
/// * A brace where a key should stand is an unexpected token.
/// * A key is followed by a text value, which is bound to it, or by a
///   block, whose content between the braces is built as a child and bound
///   to it. Reading goes on behind the value or the closing brace.
/// * A key followed by a closing brace, by the end of input or by nothing
///   is an error, and so is a block that is never closed.
///
/// A later binding of a key replaces an earlier one. The first error ends
/// the whole build; an error inside a block is handed up as it is.
pub open spec fn build_from(tokens: Seq<TokenView>, pos: int, end: int, acc: Tree) -> Result<
    Tree,
    ErrorView,
>
    recommends
        0 <= pos,
        end <= tokens.len(),
    decreases end + 1 - pos,
{
    if pos >= end {
        Ok(acc)
    } else {
        match tokens[pos].kind {
            TokenKindView::EOF => Ok(acc),
            TokenKindView::LeftBrace | TokenKindView::RightBrace => Err(
                unexpected_token(tokens[pos]),
            ),
            TokenKindView::Str(key) => if pos + 1 >= tokens.len() {
                Err(out_of_tokens())
            } else {
                match tokens[pos + 1].kind {
                    TokenKindView::Str(value) => build_from(
                        tokens,
                        pos + 2,
                        end,
                        acc.with_value(key, value),
                    ),
                    TokenKindView::LeftBrace => match matching_brace(tokens, pos + 2, end, 0) {
                        Some(close) => {
                            proof {
                                lemma_matching_brace_in_range(tokens, pos + 2, end, 0);
                            }
                            match build_from(tokens, pos + 2, close, Tree::empty()) {
                                Ok(child) => build_from(
                                    tokens,
                                    close + 1,
                                    end,
                                    acc.with_subkey(key, child),
                                ),
                                Err(e) => Err(e),
                            }
                        },
                        None => Err(unclosed_brace(tokens[pos + 1])),
                    },
                    TokenKindView::RightBrace => Err(unexpected_token(tokens[pos + 1])),
                    TokenKindView::EOF => Err(unexpected_end(tokens[pos + 1])),
                }
            },
        }
    }
}

/// What building a whole sequence of tokens gives.
pub open spec fn build(tokens: Seq<TokenView>) -> Result<Tree, ErrorView> {
    build_from(tokens, 0, tokens.len() as int, Tree::empty())
}

/// The model of what a build returned.
pub open spec fn result_view(r: Result<KeyValues, Error>) -> Result<Tree, ErrorView> {
    match r {
        Ok(tree) => Ok(tree@),
        Err(e) => Err(e@),
    }
}

/// A matching brace lies in the range that was searched and is a closing
/// brace.
pub proof fn lemma_matching_brace_in_range(
    tokens: Seq<TokenView>,
    from: int,
    end: int,
    depth: nat,
)
    ensures
        match matching_brace(tokens, from, end, depth) {
            Some(close) => from <= close < end && tokens[close].kind
                == TokenKindView::RightBrace,
            None => true,
        },
    decreases end - from,
{
    if from < end {
        match tokens[from].kind {
            TokenKindView::RightBrace => if depth != 0 {
                lemma_matching_brace_in_range(tokens, from + 1, end, (depth - 1) as nat);
            },
            TokenKindView::LeftBrace => {
                lemma_matching_brace_in_range(tokens, from + 1, end, depth + 1);
            },
            _ => {
                lemma_matching_brace_in_range(tokens, from + 1, end, depth);
            },
        }
    }
}

fn unexpected_token_err(t: &Token) -> (e: Error)
    ensures
        e@ == unexpected_token(t@),
{
    Error { kind: ErrorKind::UnexpectedToken(t.kind.clone()), line: t.line, column: t.column }
}

fn unclosed_brace_err(t: &Token) -> (e: Error)
    ensures
        e@ == unclosed_brace(t@),
{
    Error { kind: ErrorKind::NoMatchingRightBrace, line: t.line, column: t.column }
}

fn unexpected_eof(t: &Token) -> (e: Error)
    ensures
        e@ == unexpected_end(t@),
{
    Error { kind: ErrorKind::UnexpectedEOF, line: t.line, column: t.column }
}

/// Looks below `hi` for the closing brace of a block whose content starts
/// at `from`.
fn find_matching_brace(tokens: &Vec<Token>, from: usize, hi: usize) -> (r: Option<usize>)
    requires
        from <= hi <= tokens.len(),
    ensures
        match r {
            Some(close) => matching_brace(tokens_view(tokens@), from as int, hi as int, 0) == Some(
                close as int,
            ) && from <= close < hi && tokens@[close as int].kind@ == TokenKindView::RightBrace,
            None => matching_brace(tokens_view(tokens@), from as int, hi as int, 0) is None,
        },
{
    let ghost tv = tokens_view(tokens@);
    let mut depth: usize = 0;
    let mut i: usize = from;
    while i < hi
        invariant
            from <= i <= hi <= tokens.len(),
            depth <= i - from,
            tv == tokens_view(tokens@),
            matching_brace(tv, from as int, hi as int, 0) == matching_brace(
                tv,
                i as int,
                hi as int,
                depth as nat,
            ),
        decreases hi - i,
    {
        match &tokens[i].kind {
            TokenKind::RightBrace => {
                if depth == 0 {
                    return Some(i);
                }
                depth -= 1;
            },
            TokenKind::LeftBrace => {
                depth += 1;
            },
            _ => {},
        }
        i += 1;
    }
    None
}

/// Builds the level whose keys stand from `lo` up to `hi`.
fn build_range(tokens: &Vec<Token>, lo: usize, hi: usize) -> (r: Result<KeyValues, Error>)
    requires
        lo <= hi <= tokens.len(),
        hi < tokens.len() ==> tokens@[hi as int].kind@ == TokenKindView::RightBrace,
    ensures
        result_view(r) == build_from(tokens_view(tokens@), lo as int, hi as int, Tree::empty()),
    decreases hi - lo,
{
    let ghost tv = tokens_view(tokens@);
    let mut result = KeyValues::new();
    let mut current: usize = lo;
    while current < hi
        invariant
            lo <= current <= hi <= tokens.len(),
            hi < tokens.len() ==> tokens@[hi as int].kind@ == TokenKindView::RightBrace,
            tv == tokens_view(tokens@),
            build_from(tv, lo as int, hi as int, Tree::empty()) == build_from(
                tv,
                current as int,
                hi as int,
                result@,
            ),
        decreases hi - current,
    {
        let t = &tokens[current];
        match &t.kind {
            TokenKind::Str(key) => {
                if current + 1 >= tokens.len() {
                    return Err(Error { kind: ErrorKind::UnexpectedEOF, line: 0, column: 0 });
                }
                let next = &tokens[current + 1];
                match &next.kind {
                    TokenKind::Str(value) => {
                        result.add_value(key.as_str(), value.as_str());
                        current += 2;
                    },
                    TokenKind::LeftBrace => {
                        match find_matching_brace(tokens, current + 2, hi) {
                            Some(close) => {
                                match build_range(tokens, current + 2, close) {
                                    Ok(child) => {
                                        result.insert_subkey(key.clone(), child);
                                    },
                                    Err(e) => {
                                        return Err(e);
                                    },
                                }
                                current = close + 1;
                            },
                            None => {
                                return Err(unclosed_brace_err(next));
                            },
                        }
                    },
                    TokenKind::RightBrace => {
                        return Err(unexpected_token_err(next));
                    },
                    TokenKind::EOF => {
                        return Err(unexpected_eof(next));
                    },
                }
            },
            TokenKind::EOF => {
                return Ok(result);
            },
            _ => {
                return Err(unexpected_token_err(t));
            },
        }
    }
    Ok(result)
}

/// Builds the tree that a sequence of tokens describes, or reports the
/// first structural error in it.
pub fn parse_keyvalues(tokens: &Vec<Token>) -> (r: Result<KeyValues, Error>)
    ensures
        result_view(r) == build(tokens_view(tokens@)),
{
    build_range(tokens, 0, tokens.len())
}

} // verus!
