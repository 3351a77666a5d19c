//! What the builder reports for tokens that leave the grammar: a key
//! without a value, a block that is never closed, a closing brace that no
//! block has opened.

use vstd::prelude::*;
use crate::builder::{
    build,
    build_from,
    lemma_matching_brace_in_range,
    matching_brace,
    unclosed_brace,
    unexpected_end,
    unexpected_token,
};
use crate::error::{ErrorKindView, ErrorView};
use crate::grammar::{
    entries_kinds,
    kinds,
    lemma_build_passes_entries,
    lemma_kinds_spell,
    lemma_spells_parts,
    no_end_between,
    spells,
    Entry,
};
use crate::lexer::{lex, theorem_tokens_closed_by_end, Position};
use crate::token::{TokenKindView, TokenView};
use crate::tree::{parse, Tree};

verus! {

/// A key that is followed by the end of input, behind a run of entries, is
/// an unexpected end of input, reported at the end-of-input token.
pub proof fn theorem_key_without_value(
    tokens: Seq<TokenView>,
    entries: Seq<Entry>,
    key: Seq<char>,
)
    requires
        kinds(tokens) == entries_kinds(entries) + seq![
            TokenKindView::Str(key),
            TokenKindView::EOF,
        ],
    ensures
        build(tokens) == Err::<Tree, ErrorView>(unexpected_end(tokens.last())),
{
    let run = entries_kinds(entries);
    let n = run.len() as int;
    let end = seq![TokenKindView::Str(key), TokenKindView::EOF];
    lemma_kinds_spell(tokens, run + end);
    lemma_spells_parts(tokens, 0, run, end);
    lemma_build_passes_entries(tokens, 0, tokens.len() as int, Tree::empty(), entries);
    assert(tokens[n + 0].kind == end[0]);
    assert(tokens[n + 1].kind == end[1]);
}

/// A text that ends with a key, behind a run of entries, is not read: the
/// end of input is unexpected, at the place behind the last character.
pub proof fn theorem_text_ends_with_key(
    s: Seq<char>,
    tokens: Seq<TokenView>,
    entries: Seq<Entry>,
    key: Seq<char>,
)
    requires
        lex(s) == Ok::<Seq<TokenView>, ErrorView>(tokens),
        kinds(tokens) == entries_kinds(entries) + seq![
            TokenKindView::Str(key),
            TokenKindView::EOF,
        ],
    ensures
        parse(s) == Err::<Tree, ErrorView>(
            ErrorView {
                kind: ErrorKindView::UnexpectedEOF,
                line: Position::at(s, s.len() as int).line,
                column: Position::at(s, s.len() as int).column,
            },
        ),
{
    theorem_key_without_value(tokens, entries, key);
    theorem_tokens_closed_by_end(s);
}

/// A key with a block that is opened and never closed, behind a run of
/// entries, is a missing closing brace, reported at the opening brace,
/// which stands at index `open`.
pub proof fn theorem_block_never_closed(
    tokens: Seq<TokenView>,
    entries: Seq<Entry>,
    key: Seq<char>,
    open: int,
)
    requires
        spells(
            tokens,
            0,
            entries_kinds(entries) + seq![TokenKindView::Str(key), TokenKindView::LeftBrace],
        ),
        open == entries_kinds(entries).len() + 1,
        matching_brace(tokens, open + 1, tokens.len() as int, 0) is None,
    ensures
        build(tokens) == Err::<Tree, ErrorView>(unclosed_brace(tokens[open])),
{
    let run = entries_kinds(entries);
    let n = run.len() as int;
    let head = seq![TokenKindView::Str(key), TokenKindView::LeftBrace];
    lemma_spells_parts(tokens, 0, run, head);
    lemma_build_passes_entries(tokens, 0, tokens.len() as int, Tree::empty(), entries);
    assert(tokens[n + 0].kind == head[0]);
    assert(tokens[n + 1].kind == head[1]);
}

/// A text with a block that is opened and never closed, behind a run of
/// entries, is not read: the closing brace is missing, at the place of the
/// opening brace, which is the token with index `open`.
pub proof fn theorem_text_with_open_block(
    s: Seq<char>,
    tokens: Seq<TokenView>,
    entries: Seq<Entry>,
    key: Seq<char>,
    open: int,
)
    requires
        lex(s) == Ok::<Seq<TokenView>, ErrorView>(tokens),
        spells(
            tokens,
            0,
            entries_kinds(entries) + seq![TokenKindView::Str(key), TokenKindView::LeftBrace],
        ),
        open == entries_kinds(entries).len() + 1,
        matching_brace(tokens, open + 1, tokens.len() as int, 0) is None,
    ensures
        parse(s) == Err::<Tree, ErrorView>(unclosed_brace(tokens[open])),
{
    theorem_block_never_closed(tokens, entries, key, open);
}

/// A closing brace where a key should stand, behind a run of entries, is
/// an unexpected token, reported at that brace, which stands at index
/// `stray`.
pub proof fn theorem_stray_closing_brace(
    tokens: Seq<TokenView>,
    entries: Seq<Entry>,
    stray: int,
)
    requires
        spells(tokens, 0, entries_kinds(entries) + seq![TokenKindView::RightBrace]),
        stray == entries_kinds(entries).len(),
    ensures
        build(tokens) == Err::<Tree, ErrorView>(unexpected_token(tokens[stray])),
{
    let run = entries_kinds(entries);
    let n = run.len() as int;
    let tail = seq![TokenKindView::RightBrace];
    lemma_spells_parts(tokens, 0, run, tail);
    lemma_build_passes_entries(tokens, 0, tokens.len() as int, Tree::empty(), entries);
    assert(tokens[n + 0].kind == tail[0]);
}

/// A closing brace right behind a key, behind a run of entries, is an
/// unexpected token, reported at that brace, which stands at index `stray`.
pub proof fn theorem_closing_brace_for_value(
    tokens: Seq<TokenView>,
    entries: Seq<Entry>,
    key: Seq<char>,
    stray: int,
)
    requires
        spells(
            tokens,
            0,
            entries_kinds(entries) + seq![TokenKindView::Str(key), TokenKindView::RightBrace],
        ),
        stray == entries_kinds(entries).len() + 1,
    ensures
        build(tokens) == Err::<Tree, ErrorView>(unexpected_token(tokens[stray])),
{
    let run = entries_kinds(entries);
    let n = run.len() as int;
    let tail = seq![TokenKindView::Str(key), TokenKindView::RightBrace];
    lemma_spells_parts(tokens, 0, run, tail);
    lemma_build_passes_entries(tokens, 0, tokens.len() as int, Tree::empty(), entries);
    assert(tokens[n + 0].kind == tail[0]);
    assert(tokens[n + 1].kind == tail[1]);
}

/// The build failed on an unexpected token.
pub open spec fn fails_on_unexpected_token(r: Result<Tree, ErrorView>) -> bool {
    match r {
        Ok(_) => false,
        Err(e) => e.kind is UnexpectedToken,
    }
}

/// With one more block open, the search first finds the closing brace of
/// that block, and then goes on behind it.
proof fn lemma_search_one_deeper(tokens: Seq<TokenView>, from: int, end: int, depth: nat)
    ensures
        matching_brace(tokens, from, end, depth + 1) == match matching_brace(
            tokens,
            from,
            end,
            depth,
        ) {
            Some(close) => matching_brace(tokens, close + 1, end, 0),
            None => None,
        },
    decreases end - from,
{
    if from < end {
        match tokens[from].kind {
            TokenKindView::RightBrace => {
                if depth > 0 {
                    lemma_search_one_deeper(tokens, from + 1, end, (depth - 1) as nat);
                }
            },
            TokenKindView::LeftBrace => {
                lemma_search_one_deeper(tokens, from + 1, end, depth + 1);
            },
            _ => {
                lemma_search_one_deeper(tokens, from + 1, end, depth);
            },
        }
    }
}

/// A closing brace that the search finds is found as well when the search
/// ends earlier, but behind that brace.
proof fn lemma_search_ends_earlier(
    tokens: Seq<TokenView>,
    from: int,
    end: int,
    earlier: int,
    depth: nat,
)
    requires
        matching_brace(tokens, from, end, depth) is Some,
        matching_brace(tokens, from, end, depth)->0 < earlier <= end,
    ensures
        matching_brace(tokens, from, earlier, depth) == matching_brace(tokens, from, end, depth),
    decreases end - from,
{
    lemma_matching_brace_in_range(tokens, from, end, depth);
    if from < end {
        match tokens[from].kind {
            TokenKindView::RightBrace => {
                if depth > 0 {
                    lemma_search_ends_earlier(
                        tokens,
                        from + 1,
                        end,
                        earlier,
                        (depth - 1) as nat,
                    );
                }
            },
            TokenKindView::LeftBrace => {
                lemma_search_ends_earlier(tokens, from + 1, end, earlier, depth + 1);
            },
            _ => {
                lemma_search_ends_earlier(tokens, from + 1, end, earlier, depth);
            },
        }
    }
}

/// Inside a block that is closed, the builder finds nothing wrong but
/// unexpected tokens: every block inside is closed too, and the input does
/// not end there.
proof fn lemma_closed_block_fails_on_token_only(
    tokens: Seq<TokenView>,
    lo: int,
    hi: int,
    end: int,
    acc: Tree,
)
    requires
        0 <= lo,
        end <= tokens.len(),
        matching_brace(tokens, lo, end, 0) == Some(hi),
        no_end_between(tokens, lo, hi),
    ensures
        build_from(tokens, lo, hi, acc) is Ok || fails_on_unexpected_token(
            build_from(tokens, lo, hi, acc),
        ),
    decreases hi - lo,
{
    lemma_matching_brace_in_range(tokens, lo, end, 0);
    if lo < hi {
        match tokens[lo].kind {
            TokenKindView::Str(key) => {
                assert(matching_brace(tokens, lo, end, 0) == matching_brace(
                    tokens,
                    lo + 1,
                    end,
                    0,
                ));
                if lo + 1 < hi {
                    assert(matching_brace(tokens, lo + 1, end, 0) == matching_brace(
                        tokens,
                        lo + 2,
                        end,
                        if tokens[lo + 1].kind is LeftBrace {
                            1nat
                        } else {
                            0nat
                        },
                    ) || tokens[lo + 1].kind is RightBrace);
                    match tokens[lo + 1].kind {
                        TokenKindView::Str(text) => {
                            lemma_closed_block_fails_on_token_only(
                                tokens,
                                lo + 2,
                                hi,
                                end,
                                acc.with_value(key, text),
                            );
                        },
                        TokenKindView::LeftBrace => {
                            lemma_search_one_deeper(tokens, lo + 2, end, 0);
                            lemma_matching_brace_in_range(tokens, lo + 2, end, 0);
                            let close = matching_brace(tokens, lo + 2, end, 0)->0;
                            lemma_matching_brace_in_range(tokens, close + 1, end, 0);
                            lemma_search_ends_earlier(tokens, lo + 2, end, hi, 0);
                            lemma_closed_block_fails_on_token_only(
                                tokens,
                                lo + 2,
                                close,
                                end,
                                Tree::empty(),
                            );
                            if let Ok(child) = build_from(tokens, lo + 2, close, Tree::empty()) {
                                lemma_closed_block_fails_on_token_only(
                                    tokens,
                                    close + 1,
                                    hi,
                                    end,
                                    acc.with_subkey(key, child),
                                );
                            }
                        },
                        _ => {},
                    }
                }
            },
            _ => {},
        }
    }
}

/// Where the search from `pos` finds a closing brace that no block before
/// it has opened, and the input does not end before that brace, the build
/// fails on an unexpected token.
proof fn lemma_unmatched_closing_brace(
    tokens: Seq<TokenView>,
    pos: int,
    end: int,
    acc: Tree,
)
    requires
        0 <= pos,
        end <= tokens.len(),
        matching_brace(tokens, pos, end, 0) is Some,
        no_end_between(tokens, pos, matching_brace(tokens, pos, end, 0)->0),
    ensures
        fails_on_unexpected_token(build_from(tokens, pos, end, acc)),
    decreases end - pos,
{
    lemma_matching_brace_in_range(tokens, pos, end, 0);
    let stray = matching_brace(tokens, pos, end, 0)->0;
    match tokens[pos].kind {
        TokenKindView::Str(key) => {
            assert(matching_brace(tokens, pos, end, 0) == matching_brace(tokens, pos + 1, end, 0));
            lemma_matching_brace_in_range(tokens, pos + 1, end, 0);
            assert(matching_brace(tokens, pos + 1, end, 0) == matching_brace(
                tokens,
                pos + 2,
                end,
                if tokens[pos + 1].kind is LeftBrace {
                    1nat
                } else {
                    0nat
                },
            ) || tokens[pos + 1].kind is RightBrace);
            match tokens[pos + 1].kind {
                TokenKindView::Str(text) => {
                    lemma_unmatched_closing_brace(
                        tokens,
                        pos + 2,
                        end,
                        acc.with_value(key, text),
                    );
                },
                TokenKindView::LeftBrace => {
                    lemma_search_one_deeper(tokens, pos + 2, end, 0);
                    lemma_matching_brace_in_range(tokens, pos + 2, end, 0);
                    let close = matching_brace(tokens, pos + 2, end, 0)->0;
                    lemma_matching_brace_in_range(tokens, close + 1, end, 0);
                    lemma_closed_block_fails_on_token_only(
                        tokens,
                        pos + 2,
                        close,
                        end,
                        Tree::empty(),
                    );
                    if let Ok(child) = build_from(tokens, pos + 2, close, Tree::empty()) {
                        lemma_unmatched_closing_brace(
                            tokens,
                            close + 1,
                            end,
                            acc.with_subkey(key, child),
                        );
                    }
                },
                _ => {},
            }
        },
        _ => {},
    }
}

/// Tokens with a closing brace that no block before it has opened, and
/// without an end of input before that brace, never build a tree: the build
/// fails on an unexpected token.
pub proof fn theorem_unmatched_closing_brace(tokens: Seq<TokenView>)
    requires
        matching_brace(tokens, 0, tokens.len() as int, 0) is Some,
        no_end_between(tokens, 0, matching_brace(tokens, 0, tokens.len() as int, 0)->0),
    ensures
        fails_on_unexpected_token(build(tokens)),
{
    lemma_unmatched_closing_brace(tokens, 0, tokens.len() as int, Tree::empty());
}

/// A text with a closing brace that no block before it has opened is not
/// read: the build fails on an unexpected token.
pub proof fn theorem_text_with_unmatched_closing_brace(s: Seq<char>, tokens: Seq<TokenView>)
    requires
        lex(s) == Ok::<Seq<TokenView>, ErrorView>(tokens),
        matching_brace(tokens, 0, tokens.len() as int, 0) is Some,
    ensures
        fails_on_unexpected_token(parse(s)),
{
    theorem_tokens_closed_by_end(s);
    lemma_matching_brace_in_range(tokens, 0, tokens.len() as int, 0);
    theorem_unmatched_closing_brace(tokens);
}

} // verus!
