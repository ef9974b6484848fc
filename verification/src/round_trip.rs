//! Writing and reading back: what the encoder writes of an object, the
//! scanner and the parser read as that object.

use crate::parser::document::{
    behind_entry, entries_have_list, entries_plain, entries_tokens_sound, indented, line_ends,
    node_has_list, node_plain, object_value, render_entries, render_node, sound_entries,
    sound_node, well_formed, Entry, Node,
};
use crate::parser::grammar::{parse_document, ParserErrorView};
use crate::parser::steps::cons;
use crate::parser::value::{ValueMap, ValueView};
use crate::parser::writing::{
    document_text, entries_writable, law_document_text_is_read, lemma_sound_entries_are_writable,
};
use crate::ser::{written_document, written_entries, written_node, SerializerState, INDENT_WIDTH};
use crate::tokenizer::rules::{tokens_from, ScanItem};
use crate::tokenizer::text::{lemma_stream_text_step, spaces, stream_text, token_text};
use crate::tokenizer::token::TokenView;
use vstd::prelude::*;

verus! {

/// `count` line feeds.
pub open spec fn line_feeds(count: nat) -> Seq<char> {
    Seq::new(count, |i: int| '\n')
}

/// The text of a node without a list, from behind the colon of its key on:
/// a scalar behind one space, a nested block on lines of its own.
pub open spec fn node_text(node: Node, level: nat, unit: nat) -> Seq<char>
    decreases node, 0int,
{
    match node {
        Node::Scalar(token) => seq![' '] + token_text(token),
        Node::List(_) => Seq::empty(),
        Node::Object { step, entries } => seq!['\n'] + spaces((level + step) * unit)
            + entries_text(entries, 0, level + step, unit),
    }
}

/// The text of the entries from place `from` on, which stand at `level`,
/// from the key of the first of them on: one line for each key, indented by
/// `level` times `unit` spaces, and the blank lines behind each entry.
pub open spec fn entries_text(entries: Seq<Entry>, from: int, level: nat, unit: nat) -> Seq<char>
    decreases entries, entries.len() - from,
{
    if 0 <= from < entries.len() {
        entries[from].key.push(':') + node_text(entries[from].node, level, unit) + line_feeds(
            entries[from].blank_lines,
        ) + (if from + 1 < entries.len() {
            seq!['\n'] + spaces(level * unit) + entries_text(entries, from + 1, level, unit)
        } else {
            Seq::empty()
        })
    } else {
        Seq::empty()
    }
}

/// The text of `rest` behind the indentation of `level`.
proof fn lemma_indented_text(level: nat, unit: nat, rest: Seq<ScanItem>)
    ensures
        stream_text(indented(level, unit, rest)) == spaces(level * unit) + stream_text(rest),
{
    if level == 0 {
        assert(0 * unit == 0) by (nonlinear_arith);
        assert(spaces(0) + stream_text(rest) =~= stream_text(rest));
    } else {
        lemma_stream_text_step(TokenView::WhiteSpace(level * unit), rest);
    }
}

/// The text of `rest` behind line ends.
proof fn lemma_line_ends_text(count: nat, rest: Seq<ScanItem>)
    ensures
        stream_text(line_ends(count, rest)) == line_feeds(count) + stream_text(rest),
    decreases count,
{
    if count == 0 {
        assert(line_feeds(0) + stream_text(rest) =~= stream_text(rest));
    } else {
        let shorter = line_ends((count - 1) as nat, rest);
        lemma_stream_text_step(TokenView::NewLine, shorter);
        lemma_line_ends_text((count - 1) as nat, rest);
        assert(seq!['\n'] + (line_feeds((count - 1) as nat) + stream_text(rest)) =~= line_feeds(
            count,
        ) + stream_text(rest));
    }
}

/// The text of the tokens of entries is the text of the entries, followed
/// by the text of what follows them.
proof fn lemma_entries_text(
    entries: Seq<Entry>,
    from: int,
    level: nat,
    unit: nat,
    tail: Seq<ScanItem>,
)
    requires
        0 <= from <= entries.len(),
        !entries_have_list(entries, from),
    ensures
        stream_text(render_entries(entries, from, level, unit, tail)) == entries_text(
            entries,
            from,
            level,
            unit,
        ) + stream_text(tail),
    decreases entries, entries.len() - from, 0int,
{
    if from < entries.len() {
        let key = entries[from].key;
        let node = entries[from].node;
        let following = render_entries(entries, from + 1, level, unit, tail);
        let inner = if from + 1 < entries.len() {
            cons(TokenView::NewLine, indented(level, unit, following))
        } else {
            tail
        };
        let behind = behind_entry(entries, from, level, unit, tail);
        assert(behind == line_ends(entries[from].blank_lines, inner));
        assert(!node_has_list(node));
        assert(!entries_have_list(entries, from + 1));
        lemma_stream_text_step(TokenView::Identifier(key), render_node(node, level, unit, behind));
        lemma_node_text(node, level, unit, behind);
        lemma_line_ends_text(entries[from].blank_lines, inner);
        if from + 1 < entries.len() {
            lemma_stream_text_step(TokenView::NewLine, indented(level, unit, following));
            lemma_indented_text(level, unit, following);
            lemma_entries_text(entries, from + 1, level, unit, tail);
        }
        assert(stream_text(render_entries(entries, from, level, unit, tail)) =~= entries_text(
            entries,
            from,
            level,
            unit,
        ) + stream_text(tail));
    } else {
        assert(entries_text(entries, from, level, unit) + stream_text(tail) =~= stream_text(tail));
    }
}

/// The text of the tokens of a node is the text of the node, followed by
/// the text of what follows it.
proof fn lemma_node_text(node: Node, level: nat, unit: nat, tail: Seq<ScanItem>)
    requires
        !node_has_list(node),
    ensures
        stream_text(render_node(node, level, unit, tail)) == node_text(node, level, unit)
            + stream_text(tail),
    decreases node, 1int,
{
    match node {
        Node::Scalar(token) => {
            lemma_stream_text_step(TokenView::WhiteSpace(1), cons(token, tail));
            lemma_stream_text_step(token, tail);
            assert(spaces(1) =~= seq![' ']);
            assert(stream_text(render_node(node, level, unit, tail)) =~= node_text(
                node,
                level,
                unit,
            ) + stream_text(tail));
        },
        Node::List(_) => {},
        Node::Object { step, entries } => {
            let block = render_entries(entries, 0, level + step, unit, tail);
            lemma_stream_text_step(
                TokenView::NewLine,
                cons(TokenView::WhiteSpace((level + step) * unit), block),
            );
            lemma_stream_text_step(TokenView::WhiteSpace((level + step) * unit), block);
            lemma_entries_text(entries, 0, level + step, unit, tail);
            assert(stream_text(render_node(node, level, unit, tail)) =~= node_text(
                node,
                level,
                unit,
            ) + stream_text(tail));
        },
    }
}

/// Whether an encoder stands between two entries of an opened object.
pub open spec fn between_entries(state: SerializerState) -> bool {
    !state.is_root && !state.is_key && !state.key_pending
}

/// What the encoder writes of entries is their text: a line feed in front of
/// every key but the first of its object, and four spaces for each level.
proof fn lemma_written_entries_text(state: SerializerState, entries: Seq<Entry>, from: int)
    requires
        0 <= from < entries.len(),
        between_entries(state),
        sound_entries(entries, from),
        entries_plain(entries, from),
        !entries_have_list(entries, from),
    ensures
        written_entries(state, entries, from).text == state.text + (if from == 0 {
            Seq::<char>::empty()
        } else {
            seq!['\n']
        }) + spaces(INDENT_WIDTH as nat * state.indent_level) + entries_text(
            entries,
            from,
            state.indent_level,
            INDENT_WIDTH as nat,
        ),
        between_entries(written_entries(state, entries, from)),
        written_entries(state, entries, from).indent_level == state.indent_level,
    decreases entries, entries.len() - from, 0int,
{
    let key = entries[from].key;
    let node = entries[from].node;
    let level = state.indent_level;
    let unit = INDENT_WIDTH as nat;
    let keyed = state.key(from == 0, key);
    let valued = written_node(keyed, node);
    assert(sound_node(node));
    assert(node_plain(node));
    assert(!node_has_list(node));
    assert(sound_entries(entries, from + 1));
    assert(entries_plain(entries, from + 1));
    assert(!entries_have_list(entries, from + 1));
    assert(line_feeds(entries[from].blank_lines) =~= Seq::<char>::empty());
    lemma_written_node_text(keyed, node);
    assert(written_entries(state, entries, from) == written_entries(valued, entries, from + 1));
    assert(unit * level == level * unit) by (nonlinear_arith);
    if from + 1 < entries.len() {
        lemma_written_entries_text(valued, entries, from + 1);
        assert(written_entries(state, entries, from).text =~= state.text + (if from == 0 {
            Seq::<char>::empty()
        } else {
            seq!['\n']
        }) + spaces(unit * level) + entries_text(entries, from, level, unit));
    } else {
        assert(written_entries(valued, entries, from + 1) == valued);
        assert(written_entries(state, entries, from).text =~= state.text + (if from == 0 {
            Seq::<char>::empty()
        } else {
            seq!['\n']
        }) + spaces(unit * level) + entries_text(entries, from, level, unit));
    }
}

/// What the encoder writes of a value behind its key is the colon and the
/// text of the node.
proof fn lemma_written_node_text(state: SerializerState, node: Node)
    requires
        !state.is_root,
        !state.is_key,
        state.key_pending,
        sound_node(node),
        node_plain(node),
        !node_has_list(node),
    ensures
        written_node(state, node).text == state.text + seq![':'] + node_text(
            node,
            state.indent_level,
            INDENT_WIDTH as nat,
        ),
        between_entries(written_node(state, node)),
        written_node(state, node).indent_level == state.indent_level,
    decreases node, 1int,
{
    let unit = INDENT_WIDTH as nat;
    match node {
        Node::Scalar(token) => {
            assert(written_node(state, node).text =~= state.text + seq![':'] + node_text(
                node,
                state.indent_level,
                unit,
            ));
        },
        Node::List(_) => {},
        Node::Object { step, entries } => {
            let opened = state.open_map();
            assert(sound_entries(entries, 0));
            assert(entries_plain(entries, 0));
            assert(!entries_have_list(entries, 0));
            lemma_written_entries_text(opened, entries, 0);
            assert(unit * (state.indent_level + 1) == (state.indent_level + 1) * unit)
                by (nonlinear_arith);
            assert(written_node(state, node).text =~= state.text + seq![':'] + node_text(
                node,
                state.indent_level,
                unit,
            ));
        },
    }
}

/// What the encoder writes of a document that is laid out in the plain way
/// is the text of the document, with four spaces for each level.
pub proof fn lemma_written_document(document: Seq<Entry>)
    requires
        sound_entries(document, 0),
        entries_plain(document, 0),
        !entries_have_list(document, 0),
    ensures
        written_document(document) == document_text(document, INDENT_WIDTH as nat),
{
    let unit = INDENT_WIDTH as nat;
    let opened = SerializerState::initial().open_map();
    assert(opened.text =~= Seq::<char>::empty());
    lemma_entries_text(document, 0, 0, unit, Seq::empty());
    assert(stream_text(Seq::<ScanItem>::empty()) =~= Seq::<char>::empty());
    if document.len() > 0 {
        lemma_written_entries_text(opened, document, 0);
        assert(unit * 0 == 0) by (nonlinear_arith);
        assert(spaces(0) =~= Seq::<char>::empty());
        assert(written_document(document) =~= document_text(document, unit));
    } else {
        assert(written_entries(opened, document, 0) == opened);
        assert(written_document(document) =~= document_text(document, unit));
    }
}

/// What is written of a document is read back as what the document holds.
///
/// Let a document hold objects and scalars only, every nested object with
/// an entry at least; let its keys be words that do not start with a digit,
/// its strings be free of double quotes and its floating-point literals
/// start with a digit or `-`; and let no line of level two or more be
/// directly followed by a line of level zero. Then the text that the encoder
/// writes of it parses, with an indent unit of four, as the object that the
/// document holds: every key and every scalar is read back as it was
/// written.
pub proof fn law_written_document_is_read_back(document: Seq<Entry>)
    requires
        well_formed(document),
        entries_plain(document, 0),
        entries_writable(document, 0),
        !entries_have_list(document, 0),
    ensures
        parse_document(tokens_from(written_document(document), 0), INDENT_WIDTH as nat) == Ok::<
            Map<Seq<char>, ValueView>,
            ParserErrorView,
        >(object_value(document, 0, Map::empty())),
{
    lemma_written_document(document);
    law_document_text_is_read(document, INDENT_WIDTH as nat);
}

/// An object of the value tree that is written and read back is the same
/// object.
///
/// Let an object hold no list and no empty object, let its keys and scalars
/// be what the scanner can yield, as they are in every object that `parse`
/// yields, and let no line of level two or more be directly followed by a
/// line of level zero where its entries are written in their order. Then
/// what `to_string` yields for it, `parse` reads with an indent unit of four
/// as an object with the same content. So a document that was read and is
/// written again is read again as what it was read as.
pub proof fn law_written_value_is_read_back(map: ValueMap<'_>)
    requires
        well_formed(map.document()),
        entries_tokens_sound(map.document(), 0),
        !entries_have_list(map.document(), 0),
    ensures
        parse_document(tokens_from(written_document(map.document()), 0), INDENT_WIDTH as nat)
            == Ok::<Map<Seq<char>, ValueView>, ParserErrorView>(map@),
{
    map.lemma_document_plain(0);
    lemma_sound_entries_are_writable(map.document(), 0);
    law_written_document_is_read_back(map.document());
    map.lemma_document_value();
}

} // verus!
