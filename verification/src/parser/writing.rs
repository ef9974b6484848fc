//! Writing: the text of a document, and the proof that the scanner and the
//! grammar read it as what the document holds.

use super::document::{
    behind_entry, entries_fit, entries_have_list, entries_tokens_sound, indented, line_ends,
    node_fits, node_has_list, node_tokens_sound, node_value, object_value, render_document,
    render_entries, render_node, sound_entries, sound_node, well_formed, Entry, Node,
};
use super::grammar::{parse_document, scalar_value, ParserErrorView};
use super::reading::{law_last_duplicate_wins, law_well_formed_document_parses};
use super::steps::{cons, lemma_cons, list_tokens, list_values};
use super::value::ValueView;
use crate::tokenizer::number::law_decimal_is_read_back;
use crate::tokenizer::rules::{tokens_from, ScanItem};
use crate::tokenizer::text::{
    first_char, law_written_tokens_are_read_back, lemma_stream_text_step,
    lemma_token_text_not_empty, may_follow, stream_text, token_sound, token_text, writable,
};
use crate::tokenizer::token::TokenView;
use crate::tokenizer::TokenizerError;
use vstd::prelude::*;

verus! {

/// Whether the tokens between the brackets of a list can be written so that
/// the scanner reads them back: each is sound, and what stands behind it,
/// the next token or the closing bracket, may follow it. So two scalars do
/// not stand side by side, and two runs of spaces do not either.
pub open spec fn list_writable(tokens: Seq<TokenView>) -> bool {
    forall|i: int|
        0 <= i < tokens.len() ==> token_sound(#[trigger] tokens[i]) && may_follow(
            tokens[i],
            Some(
                if i + 1 < tokens.len() {
                    token_text(tokens[i + 1])[0]
                } else {
                    ']'
                },
            ),
        )
}

/// Whether a node can be written so that the scanner reads it back: every
/// key is a word that does not start with a digit, every scalar a sound
/// token, and the tokens of every list are writable.
pub open spec fn node_writable(node: Node) -> bool
    decreases node, 0int,
{
    match node {
        Node::Scalar(token) => token_sound(token),
        Node::List(tokens) => list_writable(tokens),
        Node::Object { step, entries } => entries_writable(entries, 0),
    }
}

pub open spec fn entries_writable(entries: Seq<Entry>, from: int) -> bool
    decreases entries, entries.len() - from,
{
    0 <= from < entries.len() ==> token_sound(TokenView::Identifier(entries[from].key))
        && node_writable(entries[from].node) && entries_writable(entries, from + 1)
}

/// The text of a document: the text of its tokens.
pub open spec fn document_text(document: Seq<Entry>, unit: nat) -> Seq<char> {
    stream_text(render_document(document, unit))
}

/// Whether items are nothing, or start with a line end.
pub open spec fn starts_new_line(stream: Seq<ScanItem>) -> bool {
    stream.len() > 0 ==> stream[0] == Ok::<TokenView, TokenizerError>(TokenView::NewLine)
}

/// Tokens with a token in front are writable if the token is sound and
/// what follows may follow it.
proof fn lemma_cons_writable(token: TokenView, rest: Seq<ScanItem>)
    requires
        token_sound(token),
        may_follow(token, first_char(stream_text(rest))),
        writable(rest),
    ensures
        writable(cons(token, rest)),
        stream_text(cons(token, rest)) == token_text(token) + stream_text(rest),
        first_char(stream_text(cons(token, rest))) == Some(token_text(token)[0]),
{
    lemma_cons(token, rest);
    lemma_stream_text_step(token, rest);
    lemma_token_text_not_empty(token);
}

/// The text of a sound scalar does not start with a space.
proof fn lemma_scalar_starts(token: TokenView)
    requires
        token_sound(token),
        scalar_value(token) is Some,
    ensures
        token_text(token).len() > 0,
        token_text(token)[0] != ' ',
{
    lemma_token_text_not_empty(token);
    match token {
        TokenView::Int(value) => {
            law_decimal_is_read_back(value);
        },
        _ => {},
    }
}

/// The text of tokens that start with a line end starts with a line feed.
proof fn lemma_first_char_of_line_end(tail: Seq<ScanItem>)
    requires
        tail.len() > 0,
        tail[0] == Ok::<TokenView, TokenizerError>(TokenView::NewLine),
    ensures
        first_char(stream_text(tail)) == Some('\n'),
{
    assert(tail =~= cons(TokenView::NewLine, tail.drop_first()));
    lemma_stream_text_step(TokenView::NewLine, tail.drop_first());
}

/// Writable items stay writable behind line ends.
proof fn lemma_line_ends_writable(count: nat, rest: Seq<ScanItem>)
    requires
        writable(rest),
        starts_new_line(rest),
    ensures
        writable(line_ends(count, rest)),
        starts_new_line(line_ends(count, rest)),
    decreases count,
{
    if count > 0 {
        let shorter = line_ends((count - 1) as nat, rest);
        lemma_line_ends_writable((count - 1) as nat, rest);
        lemma_cons_writable(TokenView::NewLine, shorter);
        lemma_cons(TokenView::NewLine, shorter);
    }
}

/// The writable tokens of a list, followed by the closing bracket, are
/// writable.
proof fn lemma_list_writable(tokens: Seq<TokenView>, tail: Seq<ScanItem>)
    requires
        list_writable(tokens),
        writable(tail),
    ensures
        writable(list_tokens(tokens, cons(TokenView::ListEnd, tail))),
        first_char(stream_text(list_tokens(tokens, cons(TokenView::ListEnd, tail)))) == Some(
            if tokens.len() > 0 {
                token_text(tokens[0])[0]
            } else {
                ']'
            },
        ),
    decreases tokens.len(),
{
    let closing = cons(TokenView::ListEnd, tail);
    lemma_cons_writable(TokenView::ListEnd, tail);
    if tokens.len() > 0 {
        let more = tokens.drop_first();
        assert forall|i: int| 0 <= i < more.len() implies token_sound(#[trigger] more[i])
            && may_follow(
            more[i],
            Some(
                if i + 1 < more.len() {
                    token_text(more[i + 1])[0]
                } else {
                    ']'
                },
            ),
        ) by {
            assert(more[i] == tokens[i + 1]);
            if i + 1 < more.len() {
                assert(more[i + 1] == tokens[i + 2]);
            }
        }
        lemma_list_writable(more, tail);
        assert(token_sound(tokens[0]));
        if more.len() > 0 {
            assert(more[0] == tokens[1]);
        }
        lemma_cons_writable(tokens[0], list_tokens(more, closing));
    }
}

/// The tokens of the entries of a writable block are writable, and they
/// start with a key.
proof fn lemma_entries_writable(
    entries: Seq<Entry>,
    from: int,
    level: nat,
    unit: nat,
    tail: Seq<ScanItem>,
)
    requires
        unit > 0,
        0 <= from < entries.len(),
        sound_entries(entries, from),
        entries_writable(entries, from),
        writable(tail),
        starts_new_line(tail),
    ensures
        writable(render_entries(entries, from, level, unit, tail)),
        first_char(stream_text(render_entries(entries, from, level, unit, tail))) == Some(
            entries[from].key[0],
        ),
    decreases entries, entries.len() - from, 0int,
{
    let key = entries[from].key;
    let node = entries[from].node;
    let last = from + 1 == entries.len();
    let following = render_entries(entries, from + 1, level, unit, tail);
    let inner = if last {
        tail
    } else {
        cons(TokenView::NewLine, indented(level, unit, following))
    };
    let behind = behind_entry(entries, from, level, unit, tail);
    assert(behind == line_ends(entries[from].blank_lines, inner));
    assert(sound_node(node));
    assert(node_writable(node));
    assert(token_sound(TokenView::Identifier(key)));
    if !last {
        assert(sound_entries(entries, from + 1));
        assert(entries_writable(entries, from + 1));
        lemma_entries_writable(entries, from + 1, level, unit, tail);
        if level > 0 {
            assert(level * unit > 0) by (nonlinear_arith)
                requires
                    level > 0,
                    unit > 0,
            ;
            lemma_cons_writable(TokenView::WhiteSpace(level * unit), following);
        }
        lemma_cons_writable(TokenView::NewLine, indented(level, unit, following));
        lemma_cons(TokenView::NewLine, indented(level, unit, following));
    }
    lemma_line_ends_writable(entries[from].blank_lines, inner);
    lemma_node_writable(node, level, unit, behind);
    lemma_cons_writable(TokenView::Identifier(key), render_node(node, level, unit, behind));
}

/// The tokens of a writable node are writable.
proof fn lemma_node_writable(node: Node, level: nat, unit: nat, tail: Seq<ScanItem>)
    requires
        unit > 0,
        sound_node(node),
        node_writable(node),
        writable(tail),
        starts_new_line(tail),
    ensures
        writable(render_node(node, level, unit, tail)),
    decreases node, 1int,
{
    if tail.len() > 0 {
        lemma_first_char_of_line_end(tail);
    }
    match node {
        Node::Scalar(token) => {
            lemma_scalar_starts(token);
            lemma_cons_writable(token, tail);
            lemma_cons_writable(TokenView::WhiteSpace(1), cons(token, tail));
        },
        Node::List(tokens) => {
            let body = list_tokens(tokens, cons(TokenView::ListEnd, tail));
            lemma_list_writable(tokens, tail);
            lemma_cons_writable(TokenView::ListStart, body);
            lemma_cons_writable(TokenView::WhiteSpace(1), cons(TokenView::ListStart, body));
        },
        Node::Object { step, entries } => {
            let block = render_entries(entries, 0, level + step, unit, tail);
            assert(sound_entries(entries, 0));
            assert(entries_writable(entries, 0));
            lemma_entries_writable(entries, 0, level + step, unit, tail);
            assert((level + step) * unit > 0) by (nonlinear_arith)
                requires
                    unit > 0,
                    step >= 1,
            ;
            lemma_cons_writable(TokenView::WhiteSpace((level + step) * unit), block);
            lemma_cons_writable(
                TokenView::NewLine,
                cons(TokenView::WhiteSpace((level + step) * unit), block),
            );
        },
    }
}

/// The scanner reads the text of a document as the tokens it is written
/// with.
pub proof fn law_document_text_is_scanned(document: Seq<Entry>, unit: nat)
    requires
        unit > 0,
        sound_entries(document, 0),
        entries_writable(document, 0),
    ensures
        tokens_from(document_text(document, unit), 0) == render_document(document, unit),
{
    let stream = render_document(document, unit);
    let text = document_text(document, unit);
    if document.len() > 0 {
        lemma_entries_writable(document, 0, 0, unit, Seq::empty());
    }
    assert(text.subrange(0, text.len() as int) =~= text);
    law_written_tokens_are_read_back(text, 0, stream);
}

/// The text of a well-formed document is read as what the document holds.
///
/// Let a document be well formed, let its keys be words that do not start
/// with a digit and its scalars sound tokens, and let the tokens of its
/// lists be such that each may stand behind the one before it. Then the
/// scanner reads its text as the tokens it is written with, and they parse
/// as the object that the document holds, nested as the document is.
pub proof fn law_document_text_is_read(document: Seq<Entry>, unit: nat)
    requires
        unit > 0,
        well_formed(document),
        entries_writable(document, 0),
    ensures
        tokens_from(document_text(document, unit), 0) == render_document(document, unit),
        parse_document(tokens_from(document_text(document, unit), 0), unit) == Ok::<
            Map<Seq<char>, ValueView>,
            ParserErrorView,
        >(object_value(document, 0, Map::empty())),
{
    law_document_text_is_scanned(document, unit);
    law_well_formed_document_parses(document, unit);
}

/// Of several lines of one object with the same key, the text is read with
/// the value of the last of them under the key: a duplicate key is no error,
/// and the values of the earlier lines are dropped. Every other key keeps the
/// value of its own last line, by the same law.
pub proof fn law_last_duplicate_is_read_from_text(document: Seq<Entry>, unit: nat, at: int)
    requires
        unit > 0,
        well_formed(document),
        entries_writable(document, 0),
        0 <= at < document.len(),
        forall|later: int|
            at < later < document.len() ==> (#[trigger] document[later]).key != document[at].key,
    ensures
        parse_document(tokens_from(document_text(document, unit), 0), unit) matches Ok(read)
            && read.contains_key(document[at].key) && read[document[at].key] == node_value(
            document[at].node,
        ),
{
    law_document_text_is_read(document, unit);
    law_last_duplicate_wins(document, 0, Map::empty(), at);
}

/// The document of one entry whose value is a list of the given tokens.
pub open spec fn list_document(key: Seq<char>, tokens: Seq<TokenView>) -> Seq<Entry> {
    seq![Entry { key, node: Node::List(tokens), blank_lines: 0 }]
}

/// What separates the items of a list does not count.
///
/// Let two lists hold the same scalars in the same order, with whatever
/// spaces, line ends and commas before, between and behind them. Then the
/// texts of the two, each behind the same key, parse as the same object: the
/// list of these scalars under the key.
pub proof fn law_list_separators_do_not_matter(
    key: Seq<char>,
    first: Seq<TokenView>,
    second: Seq<TokenView>,
    unit: nat,
)
    requires
        unit > 0,
        token_sound(TokenView::Identifier(key)),
        sound_node(Node::List(first)),
        sound_node(Node::List(second)),
        list_writable(first),
        list_writable(second),
        list_values(first) == list_values(second),
    ensures
        parse_document(tokens_from(document_text(list_document(key, first), unit), 0), unit)
            == parse_document(
            tokens_from(document_text(list_document(key, second), unit), 0),
            unit,
        ),
        parse_document(tokens_from(document_text(list_document(key, first), unit), 0), unit)
            == Ok::<Map<Seq<char>, ValueView>, ParserErrorView>(
            Map::<Seq<char>, ValueView>::empty().insert(
                key,
                ValueView::List(list_values(first)),
            ),
        ),
{
    lemma_list_document(key, first, unit);
    lemma_list_document(key, second, unit);
}

/// The text of a list behind a key is read as the list under the key.
proof fn lemma_list_document(key: Seq<char>, tokens: Seq<TokenView>, unit: nat)
    requires
        unit > 0,
        token_sound(TokenView::Identifier(key)),
        sound_node(Node::List(tokens)),
        list_writable(tokens),
    ensures
        parse_document(tokens_from(document_text(list_document(key, tokens), unit), 0), unit)
            == Ok::<Map<Seq<char>, ValueView>, ParserErrorView>(
            Map::<Seq<char>, ValueView>::empty().insert(
                key,
                ValueView::List(list_values(tokens)),
            ),
        ),
{
    let document = list_document(key, tokens);
    assert(sound_entries(document, 1));
    assert(sound_entries(document, 0));
    assert(node_fits(document[0].node, 0, None));
    assert(entries_fit(document, 1, 0, None));
    assert(entries_fit(document, 0, 0, None));
    assert(node_writable(document[0].node));
    assert(entries_writable(document, 1));
    assert(entries_writable(document, 0));
    law_document_text_is_read(document, unit);
    let one = Map::<Seq<char>, ValueView>::empty().insert(key, node_value(document[0].node));
    assert(object_value(document, 1, one) == one);
    assert(object_value(document, 0, Map::empty()) == one);
}

/// A node of sound tokens without a list is writable.
pub proof fn lemma_sound_tokens_are_writable(node: Node)
    requires
        node_tokens_sound(node),
        !node_has_list(node),
    ensures
        node_writable(node),
    decreases node, 1int,
{
    if let Node::Object { step, entries } = node {
        lemma_sound_entries_are_writable(entries, 0);
    }
}

pub proof fn lemma_sound_entries_are_writable(entries: Seq<Entry>, from: int)
    requires
        0 <= from,
        entries_tokens_sound(entries, from),
        !entries_have_list(entries, from),
    ensures
        entries_writable(entries, from),
    decreases entries, entries.len() - from, 0int,
{
    if from < entries.len() {
        assert(token_sound(TokenView::Identifier(entries[from].key)));
        assert(node_tokens_sound(entries[from].node));
        assert(!node_has_list(entries[from].node));
        assert(entries_tokens_sound(entries, from + 1));
        lemma_sound_tokens_are_writable(entries[from].node);
        lemma_sound_entries_are_writable(entries, from + 1);
    }
}

} // verus!
