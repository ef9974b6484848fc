//! A model of documents: what one holds, how its lines are laid out, and
//! the tokens it is written with.

use super::grammar::{is_list_gap, scalar_value};
use super::steps::{cons, list_tokens, list_values};
use super::value::ValueView;
use crate::tokenizer::rules::ScanItem;
use crate::tokenizer::text::token_sound;
use crate::tokenizer::token::TokenView;
use vstd::prelude::*;

verus! {

/// One entry of a block: a key on a line of its own, and what stands behind
/// it.
pub struct Entry {
    pub key: Seq<char>,
    pub node: Node,
    /// The number of blank lines behind the last line of the entry.
    pub blank_lines: nat,
}

/// What stands behind a key of a document.
pub enum Node {
    /// A scalar token, on the line of the key.
    Scalar(TokenView),
    /// A bracketed list, opened on the line of the key: the tokens between
    /// the brackets.
    List(Seq<TokenView>),
    /// A nested block: its entries, `step` levels deeper than the key.
    Object { step: nat, entries: Seq<Entry> },
}

/// The value of a node.
pub open spec fn node_value(node: Node) -> ValueView
    decreases node, 0int,
{
    match node {
        Node::Scalar(token) => scalar_value(token)->Some_0,
        Node::List(tokens) => ValueView::List(list_values(tokens)),
        Node::Object { step, entries } => ValueView::Object(
            object_value(entries, 0, Map::empty()),
        ),
    }
}

/// The object that the entries from place `from` on build up, put into
/// `before` in their order: a later entry replaces an earlier one with the
/// same key.
pub open spec fn object_value(
    entries: Seq<Entry>,
    from: int,
    before: Map<Seq<char>, ValueView>,
) -> Map<Seq<char>, ValueView>
    decreases entries, entries.len() - from,
{
    if 0 <= from < entries.len() {
        object_value(
            entries,
            from + 1,
            before.insert(entries[from].key, node_value(entries[from].node)),
        )
    } else {
        before
    }
}

/// What each node holds is of its kind: a scalar is a scalar token, a list
/// holds scalars and what separates them, a nested block is not empty and
/// stands at least one level below its key.
pub open spec fn sound_node(node: Node) -> bool
    decreases node, 0int,
{
    match node {
        Node::Scalar(token) => scalar_value(token) is Some,
        Node::List(tokens) => forall|i: int|
            0 <= i < tokens.len() ==> is_list_gap(#[trigger] tokens[i]) || scalar_value(tokens[i])
                is Some,
        Node::Object { step, entries } => step >= 1 && entries.len() > 0 && sound_entries(
            entries,
            0,
        ),
    }
}

pub open spec fn sound_entries(entries: Seq<Entry>, from: int) -> bool
    decreases entries, entries.len() - from,
{
    0 <= from < entries.len() ==> sound_node(entries[from].node) && sound_entries(
        entries,
        from + 1,
    )
}

/// Whether a line of nesting level `from` can be followed by a line of level
/// `to`, or by the end of the document where `to` is `None`. A line without
/// indentation ends the blocks above it only from level 1: behind a deeper
/// line it would be read as one more entry of that deeper block.
pub open spec fn step_allowed(from: nat, to: Option<nat>) -> bool {
    match to {
        None => true,
        Some(level) => level >= 1 || from <= 1,
    }
}

/// Whether the lines of a node fit what follows them. `level` is the level of
/// the key's line, `after` the level of the line behind the node's last line,
/// `None` where the document ends there. A block that stands more than one
/// level below its key must run to the end of the document: a line behind it
/// would close as many objects as it dedents by levels.
pub open spec fn node_fits(node: Node, level: nat, after: Option<nat>) -> bool
    decreases node, 0int,
{
    match node {
        Node::Object { step, entries } => (step == 1 || after is None) && entries_fit(
            entries,
            0,
            level + step,
            after,
        ),
        _ => step_allowed(level, after),
    }
}

/// Whether the entries from place `from` on, which stand at `level`, fit what
/// follows them: each but the last is followed by the next entry's line, the
/// last one by a line of level `after`.
pub open spec fn entries_fit(entries: Seq<Entry>, from: int, level: nat, after: Option<nat>) -> bool
    decreases entries, entries.len() - from,
{
    0 <= from < entries.len() ==> node_fits(
        entries[from].node,
        level,
        if from + 1 < entries.len() {
            Some(level)
        } else {
            after
        },
    ) && entries_fit(entries, from + 1, level, after)
}

/// A document is well formed if its nodes are sound, every nested block
/// stands one level below its key or runs to the end of the document, and no
/// line of level two or more is directly followed by a line of level zero.
pub open spec fn well_formed(document: Seq<Entry>) -> bool {
    sound_entries(document, 0) && entries_fit(document, 0, 0, None)
}

/// Whether a node is a list or holds one.
pub open spec fn node_has_list(node: Node) -> bool
    decreases node, 0int,
{
    match node {
        Node::Scalar(_) => false,
        Node::List(_) => true,
        Node::Object { step, entries } => entries_have_list(entries, 0),
    }
}

pub open spec fn entries_have_list(entries: Seq<Entry>, from: int) -> bool
    decreases entries, entries.len() - from,
{
    0 <= from < entries.len() && (node_has_list(entries[from].node) || entries_have_list(
        entries,
        from + 1,
    ))
}

/// The number of objects that are nested in one another at and below a node.
pub open spec fn node_depth(node: Node) -> nat
    decreases node, 0int,
{
    match node {
        Node::Object { step, entries } => 1 + entries_depth(entries, 0),
        _ => 0,
    }
}

pub open spec fn entries_depth(entries: Seq<Entry>, from: int) -> nat
    decreases entries, entries.len() - from,
{
    if 0 <= from < entries.len() {
        if node_depth(entries[from].node) >= entries_depth(entries, from + 1) {
            node_depth(entries[from].node)
        } else {
            entries_depth(entries, from + 1)
        }
    } else {
        0
    }
}

/// Whether every key of a node is a word that does not start with a digit
/// and every scalar a sound token: whether the node holds what the scanner
/// can yield.
pub open spec fn node_tokens_sound(node: Node) -> bool
    decreases node, 0int,
{
    match node {
        Node::Scalar(token) => token_sound(token),
        Node::List(_) => true,
        Node::Object { step, entries } => entries_tokens_sound(entries, 0),
    }
}

pub open spec fn entries_tokens_sound(entries: Seq<Entry>, from: int) -> bool
    decreases entries, entries.len() - from,
{
    0 <= from < entries.len() ==> token_sound(TokenView::Identifier(entries[from].key))
        && node_tokens_sound(entries[from].node) && entries_tokens_sound(entries, from + 1)
}

/// Whether a node is laid out in the plain way: every nested block one level
/// below its key, and no blank line.
pub open spec fn node_plain(node: Node) -> bool
    decreases node, 0int,
{
    match node {
        Node::Object { step, entries } => step == 1 && entries_plain(entries, 0),
        _ => true,
    }
}

pub open spec fn entries_plain(entries: Seq<Entry>, from: int) -> bool
    decreases entries, entries.len() - from,
{
    0 <= from < entries.len() ==> entries[from].blank_lines == 0 && node_plain(
        entries[from].node,
    ) && entries_plain(entries, from + 1)
}

/// `rest` behind the indentation of `level`: `level` times `unit` spaces, and
/// nothing at level zero.
pub open spec fn indented(level: nat, unit: nat, rest: Seq<ScanItem>) -> Seq<ScanItem> {
    if level == 0 {
        rest
    } else {
        cons(TokenView::WhiteSpace(level * unit), rest)
    }
}

/// `rest` behind `count` line ends.
pub open spec fn line_ends(count: nat, rest: Seq<ScanItem>) -> Seq<ScanItem>
    decreases count,
{
    if count == 0 {
        rest
    } else {
        cons(TokenView::NewLine, line_ends((count - 1) as nat, rest))
    }
}

/// The tokens of a node from behind its key on, followed by `tail`.
pub open spec fn render_node(node: Node, level: nat, unit: nat, tail: Seq<ScanItem>) -> Seq<
    ScanItem,
>
    decreases node, 0int,
{
    match node {
        Node::Scalar(token) => cons(TokenView::WhiteSpace(1), cons(token, tail)),
        Node::List(tokens) => cons(
            TokenView::WhiteSpace(1),
            cons(TokenView::ListStart, list_tokens(tokens, cons(TokenView::ListEnd, tail))),
        ),
        Node::Object { step, entries } => cons(
            TokenView::NewLine,
            cons(
                TokenView::WhiteSpace((level + step) * unit),
                render_entries(entries, 0, level + step, unit, tail),
            ),
        ),
    }
}

/// What follows the entry at place `from` of entries that stand at `level`:
/// its blank lines, and then the line of the next entry, or `tail` behind the
/// last entry.
pub open spec fn behind_entry(
    entries: Seq<Entry>,
    from: int,
    level: nat,
    unit: nat,
    tail: Seq<ScanItem>,
) -> Seq<ScanItem>
    decreases entries, entries.len() - from, 0int,
{
    if 0 <= from < entries.len() {
        line_ends(
            entries[from].blank_lines,
            if from + 1 < entries.len() {
                cons(
                    TokenView::NewLine,
                    indented(level, unit, render_entries(entries, from + 1, level, unit, tail)),
                )
            } else {
                tail
            },
        )
    } else {
        tail
    }
}

/// The tokens of the entries from place `from` on, which stand at `level`,
/// from the key of the first of them on, followed by `tail`. Each entry has a
/// line of its own, and its blank lines behind it.
pub open spec fn render_entries(
    entries: Seq<Entry>,
    from: int,
    level: nat,
    unit: nat,
    tail: Seq<ScanItem>,
) -> Seq<ScanItem>
    decreases entries, entries.len() - from, 1int,
{
    if 0 <= from < entries.len() {
        cons(
            TokenView::Identifier(entries[from].key),
            render_node(
                entries[from].node,
                level,
                unit,
                behind_entry(entries, from, level, unit, tail),
            ),
        )
    } else {
        tail
    }
}

/// The tokens of a whole document. Where the last entry has blank lines
/// behind it, the document ends with line ends.
pub open spec fn render_document(document: Seq<Entry>, unit: nat) -> Seq<ScanItem> {
    render_entries(document, 0, 0, unit, Seq::empty())
}

/// Every entry of entries of sound tokens is of sound tokens.
pub proof fn lemma_tokens_sound_at(entries: Seq<Entry>, from: int, at: int)
    requires
        0 <= from <= at < entries.len(),
        entries_tokens_sound(entries, from),
    ensures
        token_sound(TokenView::Identifier(entries[at].key)),
        node_tokens_sound(entries[at].node),
    decreases at - from,
{
    if from < at {
        lemma_tokens_sound_at(entries, from + 1, at);
    }
}

/// Entries are of sound tokens if each of them is.
pub proof fn lemma_tokens_sound_all(entries: Seq<Entry>, from: int)
    requires
        0 <= from,
        forall|i: int|
            from <= i < entries.len() ==> token_sound(
                TokenView::Identifier((#[trigger] entries[i]).key),
            ) && node_tokens_sound(entries[i].node),
    ensures
        entries_tokens_sound(entries, from),
    decreases entries.len() - from,
{
    if from < entries.len() {
        assert(token_sound(TokenView::Identifier(entries[from].key)));
        lemma_tokens_sound_all(entries, from + 1);
    }
}

/// Entries of sound tokens stay so when an entry of sound tokens is put in
/// the place of one of them or behind them.
pub proof fn lemma_tokens_sound_insert(entries: Seq<Entry>, grown: Seq<Entry>, entry: Entry)
    requires
        entries_tokens_sound(entries, 0),
        token_sound(TokenView::Identifier(entry.key)),
        node_tokens_sound(entry.node),
        grown == entries.push(entry) || exists|i: int|
            0 <= i < entries.len() && grown == entries.update(i, entry),
    ensures
        entries_tokens_sound(grown, 0),
{
    assert forall|i: int| 0 <= i < grown.len() implies token_sound(
        TokenView::Identifier((#[trigger] grown[i]).key),
    ) && node_tokens_sound(grown[i].node) by {
        if grown[i] != entry {
            assert(i < entries.len() && grown[i] == entries[i]);
            lemma_tokens_sound_at(entries, 0, i);
        }
    }
    lemma_tokens_sound_all(grown, 0);
}

/// No entry is nested more deeply than the entries are.
pub proof fn lemma_entry_depth(entries: Seq<Entry>, from: int, at: int)
    requires
        0 <= from <= at < entries.len(),
    ensures
        node_depth(entries[at].node) <= entries_depth(entries, from),
    decreases at - from,
{
    if from < at {
        lemma_entry_depth(entries, from + 1, at);
    }
}

/// Entries hold a list if one of them does.
pub proof fn lemma_entries_list(entries: Seq<Entry>, from: int, at: int)
    requires
        0 <= from <= at < entries.len(),
        node_has_list(entries[at].node),
    ensures
        entries_have_list(entries, from),
    decreases at - from,
{
    if from < at {
        lemma_entries_list(entries, from + 1, at);
    }
}

/// Entries without a list hold no entry with one.
pub proof fn lemma_entry_has_no_list(entries: Seq<Entry>, from: int, at: int)
    requires
        0 <= from <= at < entries.len(),
        !entries_have_list(entries, from),
    ensures
        !node_has_list(entries[at].node),
    decreases at - from,
{
    if from < at {
        lemma_entry_has_no_list(entries, from + 1, at);
    }
}

} // verus!
