//! The grammar that the builder accepts: what it builds from tokens that
//! follow the grammar, and that tokens from which it builds a tree do
//! follow it.
//!
//! An entry is a key with a text value, or a key with a block of entries in
//! braces. The theorems here speak of the kinds of the tokens alone: they
//! hold wherever the tokens stand in the text.

use vstd::prelude::*;
use crate::builder::{build, build_from, lemma_matching_brace_in_range, matching_brace};
use crate::error::ErrorView;
use crate::lexer::{lex, theorem_tokens_closed_by_end};
use crate::token::{TokenKindView, TokenView};
use crate::tree::{parse, Tree};

verus! {

/// One entry of a level.
pub ghost enum Entry {
    /// A key and its text value.
    Value { key: Seq<char>, text: Seq<char> },
    /// A key and the entries of its block.
    Block { key: Seq<char>, entries: Seq<Entry> },
}

/// The kinds of the tokens that spell the entry `e`.
pub open spec fn entry_kinds(e: Entry) -> Seq<TokenKindView>
    decreases e,
{
    match e {
        Entry::Value { key, text } => seq![TokenKindView::Str(key), TokenKindView::Str(text)],
        Entry::Block { key, entries } => seq![TokenKindView::Str(key), TokenKindView::LeftBrace]
            + entries_kinds(entries) + seq![TokenKindView::RightBrace],
    }
}

/// The kinds of the tokens that spell the entries `entries`, one after the
/// other.
pub open spec fn entries_kinds(entries: Seq<Entry>) -> Seq<TokenKindView>
    decreases entries,
{
    if entries.len() == 0 {
        Seq::empty()
    } else {
        entry_kinds(entries.first()) + entries_kinds(entries.drop_first())
    }
}

/// The tree `acc` after the entry `e` was bound in it.
pub open spec fn bind(acc: Tree, e: Entry) -> Tree
    decreases e,
{
    match e {
        Entry::Value { key, text } => acc.with_value(key, text),
        Entry::Block { key, entries } => acc.with_subkey(key, bind_all(Tree::empty(), entries)),
    }
}

/// The tree `acc` after the entries `entries` were bound in it, first to
/// last, so that a later binding of a key replaces an earlier one.
pub open spec fn bind_all(acc: Tree, entries: Seq<Entry>) -> Tree
    decreases entries,
{
    if entries.len() == 0 {
        acc
    } else {
        bind_all(bind(acc, entries.first()), entries.drop_first())
    }
}

/// The tree that the entries `entries` describe.
pub open spec fn tree_of(entries: Seq<Entry>) -> Tree {
    bind_all(Tree::empty(), entries)
}

/// The kinds of the tokens `tokens`, in order.
pub open spec fn kinds(tokens: Seq<TokenView>) -> Seq<TokenKindView> {
    Seq::new(tokens.len(), |i: int| tokens[i].kind)
}

/// From index `from` on, the tokens have the kinds `word`, one after the
/// other.
pub open spec fn spells(tokens: Seq<TokenView>, from: int, word: Seq<TokenKindView>) -> bool {
    &&& 0 <= from
    &&& from + word.len() <= tokens.len()
    &&& forall|i: int| 0 <= i < word.len() ==> (#[trigger] tokens[from + i]).kind == word[i]
}

/// A word made of two parts is spelled where its first part is spelled and
/// its second part behind it.
pub proof fn lemma_spells_parts(
    tokens: Seq<TokenView>,
    from: int,
    a: Seq<TokenKindView>,
    b: Seq<TokenKindView>,
)
    requires
        spells(tokens, from, a + b),
    ensures
        spells(tokens, from, a),
        spells(tokens, from + a.len(), b),
{
    assert forall|i: int| 0 <= i < a.len() implies (#[trigger] tokens[from + i]).kind == a[i] by {
        assert((a + b)[i] == a[i]);
    }
    assert forall|i: int| 0 <= i < b.len() implies (#[trigger] tokens[from + a.len() + i]).kind
        == b[i] by {
        assert((a + b)[a.len() + i] == b[i]);
        assert(tokens[from + (a.len() + i)].kind == (a + b)[a.len() + i]);
    }
}

/// A word is spelled where its first part is spelled and its second part
/// behind it.
proof fn lemma_spells_joined(
    tokens: Seq<TokenView>,
    from: int,
    a: Seq<TokenKindView>,
    b: Seq<TokenKindView>,
)
    requires
        spells(tokens, from, a),
        spells(tokens, from + a.len(), b),
    ensures
        spells(tokens, from, a + b),
{
    assert forall|i: int| 0 <= i < (a + b).len() implies (#[trigger] tokens[from + i]).kind == (a
        + b)[i] by {
        if i >= a.len() {
            assert(tokens[from + a.len() + (i - a.len())].kind == b[i - a.len()]);
        }
    }
}

/// Tokens whose kinds are a word spell that word from the start.
pub proof fn lemma_kinds_spell(tokens: Seq<TokenView>, word: Seq<TokenKindView>)
    requires
        kinds(tokens) == word,
    ensures
        spells(tokens, 0, word),
        tokens.len() == word.len(),
{
    assert forall|i: int| 0 <= i < word.len() implies (#[trigger] tokens[0 + i]).kind == word[i] by {
        assert(kinds(tokens)[i] == tokens[i].kind);
    }
}

/// No token of an entry is the end of input.
proof fn lemma_entry_kinds_hold_no_end(entries: Seq<Entry>, i: int)
    requires
        0 <= i < entries_kinds(entries).len(),
    ensures
        entries_kinds(entries)[i] != TokenKindView::EOF,
    decreases entries,
{
    let first = entry_kinds(entries.first());
    if i >= first.len() {
        lemma_entry_kinds_hold_no_end(entries.drop_first(), i - first.len());
    } else {
        match entries.first() {
            Entry::Value { key, text } => {},
            Entry::Block { key, entries: inside } => {
                if 2 <= i < 2 + entries_kinds(inside).len() {
                    lemma_entry_kinds_hold_no_end(inside, i - 2);
                }
            },
        }
    }
}

/// An entry in front of a run of entries is spelled first and bound first.
proof fn lemma_first_entry(acc: Tree, e: Entry, rest: Seq<Entry>)
    ensures
        entries_kinds(seq![e] + rest) == entry_kinds(e) + entries_kinds(rest),
        bind_all(acc, seq![e] + rest) == bind_all(bind(acc, e), rest),
{
    let all = seq![e] + rest;
    assert(all.first() == e);
    assert(all.drop_first() == rest);
}

/// The search for a closing brace passes over an entry without a change
/// of depth: the braces of an entry match each other.
proof fn lemma_search_passes_entry(
    tokens: Seq<TokenView>,
    from: int,
    end: int,
    depth: nat,
    e: Entry,
)
    requires
        spells(tokens, from, entry_kinds(e)),
        from + entry_kinds(e).len() <= end,
    ensures
        matching_brace(tokens, from, end, depth) == matching_brace(
            tokens,
            from + entry_kinds(e).len(),
            end,
            depth,
        ),
    decreases e,
{
    match e {
        Entry::Value { key, text } => {
            assert(tokens[from + 0].kind == entry_kinds(e)[0]);
            assert(tokens[from + 1].kind == entry_kinds(e)[1]);
            assert(matching_brace(tokens, from, end, depth) == matching_brace(
                tokens,
                from + 1,
                end,
                depth,
            ));
        },
        Entry::Block { key, entries } => {
            let head = seq![TokenKindView::Str(key), TokenKindView::LeftBrace];
            let inner = entries_kinds(entries);
            let tail = seq![TokenKindView::RightBrace];
            lemma_spells_parts(tokens, from, head + inner, tail);
            lemma_spells_parts(tokens, from, head, inner);
            assert(tokens[from + 0].kind == head[0]);
            assert(tokens[from + 1].kind == head[1]);
            let close = from + 2 + inner.len();
            assert(tokens[close + 0].kind == tail[0]);
            assert(matching_brace(tokens, from, end, depth) == matching_brace(
                tokens,
                from + 1,
                end,
                depth,
            ));
            assert(matching_brace(tokens, from + 1, end, depth) == matching_brace(
                tokens,
                from + 2,
                end,
                depth + 1,
            ));
            lemma_search_passes_entries(tokens, from + 2, end, depth + 1, entries);
            assert(matching_brace(tokens, close, end, depth + 1) == matching_brace(
                tokens,
                close + 1,
                end,
                depth,
            ));
        },
    }
}

/// The search for a closing brace passes over a run of entries without a
/// change of depth.
proof fn lemma_search_passes_entries(
    tokens: Seq<TokenView>,
    from: int,
    end: int,
    depth: nat,
    entries: Seq<Entry>,
)
    requires
        spells(tokens, from, entries_kinds(entries)),
        from + entries_kinds(entries).len() <= end,
    ensures
        matching_brace(tokens, from, end, depth) == matching_brace(
            tokens,
            from + entries_kinds(entries).len(),
            end,
            depth,
        ),
    decreases entries,
{
    if entries.len() > 0 {
        let first = entry_kinds(entries.first());
        let rest = entries_kinds(entries.drop_first());
        lemma_spells_parts(tokens, from, first, rest);
        lemma_search_passes_entry(tokens, from, end, depth, entries.first());
        lemma_search_passes_entries(tokens, from + first.len(), end, depth, entries.drop_first());
    }
}

/// Building a level passes over a run of entries and binds each of them:
/// what stands behind the run decides the rest.
pub proof fn lemma_build_passes_entries(
    tokens: Seq<TokenView>,
    pos: int,
    end: int,
    acc: Tree,
    entries: Seq<Entry>,
)
    requires
        spells(tokens, pos, entries_kinds(entries)),
        pos + entries_kinds(entries).len() <= end,
    ensures
        build_from(tokens, pos, end, acc) == build_from(
            tokens,
            pos + entries_kinds(entries).len(),
            end,
            bind_all(acc, entries),
        ),
    decreases entries,
{
    if entries.len() > 0 {
        let e = entries.first();
        let first = entry_kinds(e);
        let rest = entries_kinds(entries.drop_first());
        lemma_spells_parts(tokens, pos, first, rest);
        match e {
            Entry::Value { key, text } => {
                assert(tokens[pos + 0].kind == first[0]);
                assert(tokens[pos + 1].kind == first[1]);
                assert(build_from(tokens, pos, end, acc) == build_from(
                    tokens,
                    pos + 2,
                    end,
                    bind(acc, e),
                ));
            },
            Entry::Block { key, entries: inside } => {
                let head = seq![TokenKindView::Str(key), TokenKindView::LeftBrace];
                let inner = entries_kinds(inside);
                let tail = seq![TokenKindView::RightBrace];
                lemma_spells_parts(tokens, pos, head + inner, tail);
                lemma_spells_parts(tokens, pos, head, inner);
                assert(tokens[pos + 0].kind == head[0]);
                assert(tokens[pos + 1].kind == head[1]);
                let close = pos + 2 + inner.len();
                assert(tokens[close + 0].kind == tail[0]);
                lemma_search_passes_entries(tokens, pos + 2, end, 0, inside);
                assert(matching_brace(tokens, pos + 2, end, 0) == Some(close));
                lemma_build_passes_entries(tokens, pos + 2, close, Tree::empty(), inside);
                assert(build_from(tokens, pos + 2, close, Tree::empty()) == Ok::<Tree, ErrorView>(
                    tree_of(inside),
                ));
                assert(build_from(tokens, pos, end, acc) == build_from(
                    tokens,
                    close + 1,
                    end,
                    bind(acc, e),
                ));
            },
        }
        lemma_build_passes_entries(
            tokens,
            pos + first.len(),
            end,
            bind(acc, e),
            entries.drop_first(),
        );
    }
}

/// Tokens that spell a run of entries, closed by the end of input, build
/// the tree that the entries describe. Writing the bindings of a tree down
/// as entries, in any order that gives the tree back, and building from
/// them again therefore yields the same tree.
pub proof fn theorem_entries_build_their_tree(tokens: Seq<TokenView>, entries: Seq<Entry>)
    requires
        kinds(tokens) == entries_kinds(entries) + seq![TokenKindView::EOF],
    ensures
        build(tokens) == Ok::<Tree, ErrorView>(tree_of(entries)),
{
    let run = entries_kinds(entries);
    let n = run.len() as int;
    let end = seq![TokenKindView::EOF];
    lemma_kinds_spell(tokens, run + end);
    lemma_spells_parts(tokens, 0, run, end);
    lemma_build_passes_entries(tokens, 0, tokens.len() as int, Tree::empty(), entries);
    assert(tokens[n + 0].kind == end[0]);
}

/// A text whose tokens spell a run of entries is read as the tree that the
/// entries describe.
pub proof fn theorem_text_of_entries(s: Seq<char>, tokens: Seq<TokenView>, entries: Seq<Entry>)
    requires
        lex(s) == Ok::<Seq<TokenView>, ErrorView>(tokens),
        kinds(tokens) == entries_kinds(entries) + seq![TokenKindView::EOF],
    ensures
        parse(s) == Ok::<Tree, ErrorView>(tree_of(entries)),
{
    theorem_entries_build_their_tree(tokens, entries);
}

/// No token from index `lo` up to index `hi` is the end of input.
pub open spec fn no_end_between(tokens: Seq<TokenView>, lo: int, hi: int) -> bool {
    forall|j: int| lo <= j < hi ==> (#[trigger] tokens[j]).kind != TokenKindView::EOF
}

/// The entries that the builder reads from `pos` up to `end`, as far as it
/// reads without an error.
pub open spec fn entries_read(tokens: Seq<TokenView>, pos: int, end: int) -> Seq<Entry>
    recommends
        0 <= pos,
        end <= tokens.len(),
    decreases end + 1 - pos,
{
    if pos >= end || pos + 1 >= tokens.len() {
        Seq::empty()
    } else {
        match (tokens[pos].kind, tokens[pos + 1].kind) {
            (TokenKindView::Str(key), TokenKindView::Str(text)) => seq![
                Entry::Value { key, text },
            ] + entries_read(tokens, pos + 2, end),
            (TokenKindView::Str(key), TokenKindView::LeftBrace) => match matching_brace(
                tokens,
                pos + 2,
                end,
                0,
            ) {
                Some(close) => {
                    proof {
                        lemma_matching_brace_in_range(tokens, pos + 2, end, 0);
                    }
                    seq![Entry::Block { key, entries: entries_read(tokens, pos + 2, close) }]
                        + entries_read(tokens, close + 1, end)
                },
                None => Seq::empty(),
            },
            _ => Seq::empty(),
        }
    }
}

/// Where only the last token may be the end of input, a level that is
/// built without an error is a run of entries from its first token to its
/// end, or to the end of input, and its tree is what those entries
/// describe.
proof fn lemma_built_level_is_entries(
    tokens: Seq<TokenView>,
    pos: int,
    end: int,
    acc: Tree,
)
    requires
        0 <= pos <= end <= tokens.len(),
        end < tokens.len() ==> tokens[end].kind == TokenKindView::RightBrace,
        no_end_between(tokens, 0, tokens.len() - 1),
        build_from(tokens, pos, end, acc) is Ok,
    ensures
        spells(tokens, pos, entries_kinds(entries_read(tokens, pos, end))),
        build_from(tokens, pos, end, acc) == Ok::<Tree, ErrorView>(
            bind_all(acc, entries_read(tokens, pos, end)),
        ),
        ({
            let stop = pos + entries_kinds(entries_read(tokens, pos, end)).len();
            stop == end || (stop == end - 1 && end == tokens.len() && tokens[stop].kind
                == TokenKindView::EOF)
        }),
    decreases end - pos,
{
    if pos < end {
        match tokens[pos].kind {
            TokenKindView::Str(key) => {
                match tokens[pos + 1].kind {
                    TokenKindView::Str(text) => {
                        let e = Entry::Value { key, text };
                        let rest = entries_read(tokens, pos + 2, end);
                        lemma_built_level_is_entries(tokens, pos + 2, end, bind(acc, e));
                        lemma_first_entry(acc, e, rest);
                        lemma_spells_joined(tokens, pos, entry_kinds(e), entries_kinds(rest));
                    },
                    TokenKindView::LeftBrace => {
                        lemma_matching_brace_in_range(tokens, pos + 2, end, 0);
                        let close = matching_brace(tokens, pos + 2, end, 0)->0;
                        let inside = entries_read(tokens, pos + 2, close);
                        let e = Entry::Block { key, entries: inside };
                        let rest = entries_read(tokens, close + 1, end);
                        lemma_built_level_is_entries(tokens, pos + 2, close, Tree::empty());
                        lemma_built_level_is_entries(tokens, close + 1, end, bind(acc, e));
                        lemma_first_entry(acc, e, rest);
                        let head = seq![TokenKindView::Str(key), TokenKindView::LeftBrace];
                        let tail = seq![TokenKindView::RightBrace];
                        lemma_spells_joined(tokens, pos, head, entries_kinds(inside));
                        lemma_spells_joined(tokens, pos, head + entries_kinds(inside), tail);
                        lemma_spells_joined(tokens, pos, entry_kinds(e), entries_kinds(rest));
                    },
                    _ => {},
                }
            },
            _ => {},
        }
    }
}

/// Tokens that build a tree, with no end of input but at the last place,
/// spell a run of entries, closed by the end of input or not, and the tree
/// is the one that those entries describe.
pub proof fn theorem_built_tokens_are_entries(tokens: Seq<TokenView>)
    requires
        no_end_between(tokens, 0, tokens.len() - 1),
        build(tokens) is Ok,
    ensures
        ({
            let entries = entries_read(tokens, 0, tokens.len() as int);
            &&& build(tokens) == Ok::<Tree, ErrorView>(tree_of(entries))
            &&& kinds(tokens) == entries_kinds(entries) || kinds(tokens) == entries_kinds(entries)
                + seq![TokenKindView::EOF]
        }),
{
    let entries = entries_read(tokens, 0, tokens.len() as int);
    lemma_built_level_is_entries(tokens, 0, tokens.len() as int, Tree::empty());
    let run = entries_kinds(entries);
    assert forall|i: int| 0 <= i < run.len() implies kinds(tokens)[i] == run[i] by {
        assert(tokens[0 + i].kind == run[i]);
    }
    if run.len() == tokens.len() {
        assert(kinds(tokens) =~= run);
    } else {
        assert(kinds(tokens) =~= run + seq![TokenKindView::EOF]);
    }
}

/// A text that is read as a tree spells a run of entries, and the tree is
/// the one that those entries describe.
pub proof fn theorem_read_text_is_entries(s: Seq<char>, tokens: Seq<TokenView>)
    requires
        lex(s) == Ok::<Seq<TokenView>, ErrorView>(tokens),
        parse(s) is Ok,
    ensures
        ({
            let entries = entries_read(tokens, 0, tokens.len() as int);
            &&& parse(s) == Ok::<Tree, ErrorView>(tree_of(entries))
            &&& kinds(tokens) == entries_kinds(entries) + seq![TokenKindView::EOF]
        }),
{
    theorem_tokens_closed_by_end(s);
    theorem_built_tokens_are_entries(tokens);
    let entries = entries_read(tokens, 0, tokens.len() as int);
    if kinds(tokens) == entries_kinds(entries) {
        lemma_entry_kinds_hold_no_end(entries, tokens.len() - 1);
        assert(kinds(tokens)[tokens.len() - 1] == tokens[tokens.len() - 1].kind);
    }
}

} // verus!
