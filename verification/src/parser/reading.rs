//! Reading: the grammar reads a well-formed document as what it holds.

use super::document::{
    behind_entry, entries_fit, indented, line_ends, node_fits, node_value, object_value,
    render_document, render_entries, render_node, sound_entries, sound_node, step_allowed,
    well_formed, Entry, Node,
};
use super::grammar::{
    entry_value_spec, level_of, line_end_closes, parse_document, parse_object_spec, Block,
    EntryValue, ParserErrorView,
};
use super::steps::{
    cons, lemma_cons, lemma_indentation_skipped, lemma_key_step, lemma_line_end_closes,
    lemma_line_end_continues, lemma_list_value, lemma_nested_value, lemma_object_at_end,
    lemma_object_closes_pending, lemma_scalar_value,
};
use super::value::ValueView;
use crate::tokenizer::rules::ScanItem;
use crate::tokenizer::token::TokenView;
use crate::tokenizer::TokenizerError;
use vstd::arithmetic::div_mod::lemma_div_by_multiple;
use vstd::prelude::*;

verus! {

/// The items behind the line ends that `stream` starts with.
pub open spec fn strip_line_ends(stream: Seq<ScanItem>) -> Seq<ScanItem>
    decreases stream.len(),
{
    if stream.len() > 0 && stream[0] == Ok::<TokenView, TokenizerError>(TokenView::NewLine) {
        strip_line_ends(stream.drop_first())
    } else {
        stream
    }
}

/// Whether `tail` starts the way a line of level `after` follows a line: with
/// one line end or more, then the indentation of that level and a key. With
/// `None` it is the end of the document: line ends, if anything.
pub open spec fn follows(tail: Seq<ScanItem>, after: Option<nat>, unit: nat) -> bool {
    match after {
        None => strip_line_ends(tail).len() == 0,
        Some(level) => tail.len() > strip_line_ends(tail).len() && exists|
            key: Seq<char>,
            rest: Seq<ScanItem>,
        |
            strip_line_ends(tail) == indented(
                level,
                unit,
                #[trigger] cons(TokenView::Identifier(key), rest),
            ),
    }
}

/// How many blocks above one of `level` end where a line of level `after`
/// follows.
pub open spec fn closed_above(level: nat, after: Option<nat>) -> nat {
    match after {
        Some(to) => if 1 <= to < level {
            (level - to - 1) as nat
        } else {
            0
        },
        None => 0,
    }
}

/// An indentation of `level` units is of that level.
pub proof fn lemma_level_of_indentation(level: nat, unit: nat)
    requires
        unit > 0,
    ensures
        level_of(level * unit, unit) == level,
{
    lemma_div_by_multiple(level as int, unit as int);
}

/// Line ends in front of items are stripped with the line ends of the items.
proof fn lemma_strip_line_ends(count: nat, rest: Seq<ScanItem>)
    ensures
        strip_line_ends(line_ends(count, rest)) == strip_line_ends(rest),
        line_ends(count, rest).len() == count + rest.len(),
    decreases count,
{
    if count > 0 {
        let shorter = line_ends((count - 1) as nat, rest);
        lemma_cons(TokenView::NewLine, shorter);
        lemma_strip_line_ends((count - 1) as nat, rest);
    }
}

/// What is left behind the line ends is no longer than the items, starts
/// with no line end, and everything in front of it is a line end.
proof fn lemma_stripped(stream: Seq<ScanItem>)
    ensures
        strip_line_ends(stream).len() <= stream.len(),
        strip_line_ends(stream).len() > 0 ==> strip_line_ends(stream)[0] != Ok::<
            TokenView,
            TokenizerError,
        >(TokenView::NewLine),
        stream.len() > strip_line_ends(stream).len() ==> stream[0] == Ok::<
            TokenView,
            TokenizerError,
        >(TokenView::NewLine),
    decreases stream.len(),
{
    if stream.len() > 0 && stream[0] == Ok::<TokenView, TokenizerError>(TokenView::NewLine) {
        lemma_stripped(stream.drop_first());
    }
}

/// Entries that fit a following line of level zero stand at level zero or
/// one.
proof fn lemma_fit_before_top_level(entries: Seq<Entry>, from: int, level: nat)
    requires
        0 <= from < entries.len(),
        sound_entries(entries, from),
        entries_fit(entries, from, level, Some(0nat)),
    ensures
        level <= 1,
    decreases entries, entries.len() - from,
{
    let node = entries[from].node;
    assert(sound_node(node));
    if from + 1 < entries.len() {
        lemma_fit_before_top_level(entries, from + 1, level);
    } else {
        assert(node_fits(node, level, Some(0nat)));
        match node {
            Node::Object { step, entries: inner } => {
                assert(sound_entries(inner, 0));
                assert(entries_fit(inner, 0, level + step, Some(0nat)));
                lemma_fit_before_top_level(inner, 0, level + step);
            },
            _ => {
                assert(step_allowed(level, Some(0nat)));
            },
        }
    }
}

/// Blank lines within an object are passed over.
proof fn lemma_line_ends_pass(
    stream: Seq<ScanItem>,
    level: nat,
    unit: nat,
    entries: Map<Seq<char>, ValueView>,
)
    requires
        strip_line_ends(stream).len() > 0,
        strip_line_ends(stream)[0] is Ok,
        line_end_closes(strip_line_ends(stream), level, unit) is None,
    ensures
        parse_object_spec(stream, 0, level, unit, entries) == parse_object_spec(
            strip_line_ends(stream),
            0,
            level,
            unit,
            entries,
        ),
    decreases stream.len(),
{
    if stream.len() > 0 && stream[0] == Ok::<TokenView, TokenizerError>(TokenView::NewLine) {
        let line = stream.drop_first();
        assert(stream =~= cons(TokenView::NewLine, line));
        lemma_stripped(line);
        if line[0] == Ok::<TokenView, TokenizerError>(TokenView::NewLine) {
            assert(line_end_closes(line, level, unit) is None);
            lemma_line_end_continues(line, level, unit, entries);
            lemma_line_ends_pass(line, level, unit, entries);
        } else {
            assert(strip_line_ends(line) == line);
            lemma_line_end_continues(line, level, unit, entries);
        }
    }
}

/// A block ends at the line end in front of what follows it.
proof fn lemma_block_ends_at_line_end(
    tail: Seq<ScanItem>,
    level: nat,
    after: Option<nat>,
    unit: nat,
    entries: Map<Seq<char>, ValueView>,
)
    requires
        unit > 0,
        follows(tail, after, unit),
        after matches Some(to) ==> to < level && (to >= 1 || level == 1),
    ensures
        parse_object_spec(tail, 0, level, unit, entries) == Ok::<Block, ParserErrorView>(
            Block { entries, rest: strip_line_ends(tail), pending: closed_above(level, after) },
        ),
    decreases tail.len(),
{
    lemma_stripped(tail);
    if tail.len() == 0 {
        lemma_object_at_end(0, level, unit, entries);
        assert(tail =~= Seq::empty());
    } else {
        let line = tail.drop_first();
        assert(tail =~= cons(TokenView::NewLine, line));
        lemma_stripped(line);
        if line.len() == 0 {
            lemma_line_end_closes(line, level, unit, entries);
        } else if line[0] == Ok::<TokenView, TokenizerError>(TokenView::NewLine) {
            assert(line_end_closes(line, level, unit) is None);
            assert(strip_line_ends(tail) == strip_line_ends(line));
            lemma_stripped(line.drop_first());
            assert(strip_line_ends(line) == strip_line_ends(line.drop_first()));
            assert(follows(line, after, unit));
            lemma_line_end_continues(line, level, unit, entries);
            lemma_block_ends_at_line_end(line, level, after, unit, entries);
        } else {
            assert(strip_line_ends(line) == line);
            let to = after->Some_0;
            let (key, rest) = choose|key: Seq<char>, rest: Seq<ScanItem>|
                strip_line_ends(tail) == indented(
                    to,
                    unit,
                    #[trigger] cons(TokenView::Identifier(key), rest),
                );
            lemma_cons(TokenView::Identifier(key), rest);
            lemma_level_of_indentation(to, unit);
            if to > 0 {
                lemma_cons(TokenView::WhiteSpace(to * unit), cons(TokenView::Identifier(key), rest));
            }
            lemma_line_end_closes(line, level, unit, entries);
        }
    }
}

/// A block whose last entry was a nested block ends with it.
proof fn lemma_block_ends_pending(
    tail: Seq<ScanItem>,
    level: nat,
    after: Option<nat>,
    unit: nat,
    entries: Map<Seq<char>, ValueView>,
)
    requires
        unit > 0,
        follows(tail, after, unit),
        after matches Some(to) ==> 1 <= to < level,
    ensures
        parse_object_spec(
            strip_line_ends(tail),
            closed_above(level + 1, after),
            level,
            unit,
            entries,
        ) == Ok::<Block, ParserErrorView>(
            Block { entries, rest: strip_line_ends(tail), pending: closed_above(level, after) },
        ),
{
    match after {
        None => {
            lemma_object_at_end(0, level, unit, entries);
            assert(strip_line_ends(tail) =~= Seq::empty());
        },
        Some(to) => {
            let (key, rest) = choose|key: Seq<char>, rest: Seq<ScanItem>|
                strip_line_ends(tail) == indented(
                    to,
                    unit,
                    #[trigger] cons(TokenView::Identifier(key), rest),
                );
            lemma_cons(TokenView::WhiteSpace(to * unit), cons(TokenView::Identifier(key), rest));
            lemma_object_closes_pending(
                strip_line_ends(tail),
                closed_above(level + 1, after),
                level,
                unit,
                entries,
            );
        },
    }
}

/// The grammar reads the entries of a block, from any of them on, as the
/// object that they build up, and ends the block in front of what follows.
proof fn lemma_entries_parse(
    entries: Seq<Entry>,
    from: int,
    level: nat,
    unit: nat,
    tail: Seq<ScanItem>,
    after: Option<nat>,
    before: Map<Seq<char>, ValueView>,
)
    requires
        unit > 0,
        0 <= from < entries.len(),
        sound_entries(entries, from),
        entries_fit(entries, from, level, after),
        follows(tail, after, unit),
        after matches Some(to) ==> to < level,
    ensures
        parse_object_spec(render_entries(entries, from, level, unit, tail), 0, level, unit, before)
            == Ok::<Block, ParserErrorView>(
            Block {
                entries: object_value(entries, from, before),
                rest: strip_line_ends(tail),
                pending: closed_above(level, after),
            },
        ),
    decreases entries, entries.len() - from, 0int,
{
    let key = entries[from].key;
    let node = entries[from].node;
    let last = from + 1 == entries.len();
    let line = render_entries(entries, from + 1, level, unit, tail);
    let next_line = indented(level, unit, line);
    let inner = if last {
        tail
    } else {
        cons(TokenView::NewLine, next_line)
    };
    let behind = behind_entry(entries, from, level, unit, tail);
    let behind_level = if last {
        after
    } else {
        Some(level)
    };
    let value_tokens = render_node(node, level, unit, behind);
    let grown = before.insert(key, node_value(node));
    assert(sound_node(node));
    assert(node_fits(node, level, behind_level));
    assert(behind == line_ends(entries[from].blank_lines, inner));
    assert(render_entries(entries, from, level, unit, tail) == cons(
        TokenView::Identifier(key),
        value_tokens,
    ));
    lemma_strip_line_ends(entries[from].blank_lines, inner);
    lemma_level_of_indentation(level, unit);
    if after == Some(0nat) {
        lemma_fit_before_top_level(entries, from, level);
    }
    if !last {
        assert(sound_entries(entries, from + 1));
        assert(entries_fit(entries, from + 1, level, after));
        let following = render_node(
            entries[from + 1].node,
            level,
            unit,
            behind_entry(entries, from + 1, level, unit, tail),
        );
        assert(line == cons(TokenView::Identifier(entries[from + 1].key), following));
        lemma_cons(TokenView::Identifier(entries[from + 1].key), following);
        lemma_cons(TokenView::NewLine, next_line);
        if level > 0 {
            lemma_cons(TokenView::WhiteSpace(level * unit), line);
        }
        assert(strip_line_ends(next_line) == next_line);
        assert(strip_line_ends(inner) == next_line);
        assert(follows(behind, behind_level, unit));
    } else {
        assert(follows(behind, behind_level, unit));
    }
    lemma_node_parses(node, level, unit, behind, behind_level);
    lemma_key_step(key, value_tokens, level, unit, before);
    let read = EntryValue {
        value: node_value(node),
        rest: if node is Object {
            strip_line_ends(behind)
        } else {
            behind
        },
        pending: if node is Object {
            closed_above(level + 1, behind_level)
        } else {
            0
        },
    };
    assert(parse_object_spec(render_entries(entries, from, level, unit, tail), 0, level, unit, before)
        == parse_object_spec(read.rest, read.pending, level, unit, grown));
    assert(object_value(entries, from, before) == object_value(entries, from + 1, grown));
    if last {
        assert(object_value(entries, from + 1, grown) == grown);
        if let Node::Object { step, entries: inner_entries } = node {
            if after == Some(0nat) {
                assert(sound_entries(inner_entries, 0));
                assert(entries_fit(inner_entries, 0, level + step, after));
                lemma_fit_before_top_level(inner_entries, 0, level + step);
            }
            lemma_block_ends_pending(behind, level, after, unit, grown);
        } else {
            lemma_block_ends_at_line_end(behind, level, after, unit, grown);
        }
    } else {
        if !(node is Object) {
            lemma_line_ends_pass(behind, level, unit, grown);
        }
        if level > 0 {
            lemma_indentation_skipped(level * unit, line, level, unit, grown);
        }
        lemma_entries_parse(entries, from + 1, level, unit, tail, after, grown);
    }
}

/// The grammar reads the tokens of a node as the value of the node.
proof fn lemma_node_parses(
    node: Node,
    level: nat,
    unit: nat,
    tail: Seq<ScanItem>,
    after: Option<nat>,
)
    requires
        unit > 0,
        sound_node(node),
        node_fits(node, level, after),
        follows(tail, after, unit),
        after matches Some(to) ==> to <= level,
    ensures
        entry_value_spec(render_node(node, level, unit, tail), level, unit) == Ok::<
            EntryValue,
            ParserErrorView,
        >(
            EntryValue {
                value: node_value(node),
                rest: if node is Object {
                    strip_line_ends(tail)
                } else {
                    tail
                },
                pending: if node is Object {
                    closed_above(level + 1, after)
                } else {
                    0
                },
            },
        ),
    decreases node, 1int,
{
    match node {
        Node::Scalar(token) => {
            lemma_scalar_value(token, tail, level, unit);
        },
        Node::List(tokens) => {
            lemma_list_value(tokens, tail, level, unit);
        },
        Node::Object { step, entries } => {
            assert(entries.len() > 0);
            assert(sound_entries(entries, 0));
            assert(entries_fit(entries, 0, level + step, after));
            lemma_level_of_indentation(level + step, unit);
            lemma_nested_value(
                (level + step) * unit,
                render_entries(entries, 0, level + step, unit, tail),
                level,
                unit,
            );
            lemma_entries_parse(entries, 0, level + step, unit, tail, after, Map::empty());
        },
    }
}

/// A well-formed document is read as what it holds.
///
/// Let every line of the document be indented by its nesting level times the
/// indent unit; let every nested block stand one level below its key, or any
/// number of levels below it where the block runs to the end of the
/// document; and let no line of level two or more be directly followed by a
/// line of level zero. Blank lines may stand behind any entry. Then the
/// tokens of the document parse, and the result nests as the document does:
/// each nested block is the object under its key.
pub proof fn law_well_formed_document_parses(document: Seq<Entry>, unit: nat)
    requires
        unit > 0,
        well_formed(document),
    ensures
        parse_document(render_document(document, unit), unit) == Ok::<
            Map<Seq<char>, ValueView>,
            ParserErrorView,
        >(object_value(document, 0, Map::empty())),
{
    if document.len() == 0 {
        lemma_object_at_end(0, 0, unit, Map::empty());
    } else {
        lemma_entries_parse(document, 0, 0, unit, Seq::empty(), None, Map::empty());
    }
}

/// Of several entries of one object with the same key, the last one counts.
pub proof fn law_last_duplicate_wins(
    entries: Seq<Entry>,
    from: int,
    before: Map<Seq<char>, ValueView>,
    at: int,
)
    requires
        0 <= from <= at < entries.len(),
        forall|later: int|
            at < later < entries.len() ==> (#[trigger] entries[later]).key != entries[at].key,
    ensures
        object_value(entries, from, before).contains_key(entries[at].key),
        object_value(entries, from, before)[entries[at].key] == node_value(entries[at].node),
    decreases entries.len() - from,
{
    let grown = before.insert(entries[from].key, node_value(entries[from].node));
    if from < at {
        law_last_duplicate_wins(entries, from + 1, grown, at);
    } else {
        lemma_later_keys_keep(entries, from + 1, grown, entries[at].key);
    }
}

/// The keys of the object that entries build up are the keys of the entries
/// and those that were there before: each key counts once, however many
/// entries have it.
pub proof fn law_object_keys(
    entries: Seq<Entry>,
    from: int,
    before: Map<Seq<char>, ValueView>,
    key: Seq<char>,
)
    requires
        0 <= from,
    ensures
        object_value(entries, from, before).contains_key(key) <==> before.contains_key(key)
            || exists|i: int| from <= i < entries.len() && (#[trigger] entries[i]).key == key,
    decreases entries.len() - from,
{
    if from < entries.len() {
        let grown = before.insert(entries[from].key, node_value(entries[from].node));
        law_object_keys(entries, from + 1, grown, key);
        if exists|i: int| from <= i < entries.len() && (#[trigger] entries[i]).key == key {
            let i = choose|i: int| from <= i < entries.len() && (#[trigger] entries[i]).key == key;
            if i == from {
                assert(grown.contains_key(key));
            }
        }
        if object_value(entries, from, before).contains_key(key) && !before.contains_key(key) {
            if grown.contains_key(key) {
                assert(entries[from].key == key);
            } else {
                let i = choose|i: int|
                    from + 1 <= i < entries.len() && (#[trigger] entries[i]).key == key;
                assert(entries[i].key == key);
            }
        }
    }
}

/// Of several entries of a well-formed document with the same key, the
/// parser keeps the value of the last one.
pub proof fn law_last_duplicate_is_read(document: Seq<Entry>, unit: nat, at: int)
    requires
        unit > 0,
        well_formed(document),
        0 <= at < document.len(),
        forall|later: int|
            at < later < document.len() ==> (#[trigger] document[later]).key != document[at].key,
    ensures
        parse_document(render_document(document, unit), unit) matches Ok(read)
            && read.contains_key(document[at].key) && read[document[at].key] == node_value(
            document[at].node,
        ),
{
    law_well_formed_document_parses(document, unit);
    law_last_duplicate_wins(document, 0, Map::empty(), at);
}

/// Entries with other keys leave what stands under a key as it is.
proof fn lemma_later_keys_keep(
    entries: Seq<Entry>,
    from: int,
    before: Map<Seq<char>, ValueView>,
    key: Seq<char>,
)
    requires
        0 <= from <= entries.len(),
        forall|later: int| from <= later < entries.len() ==> (#[trigger] entries[later]).key != key,
    ensures
        object_value(entries, from, before).contains_key(key) == before.contains_key(key),
        object_value(entries, from, before)[key] == before[key],
    decreases entries.len() - from,
{
    if from < entries.len() {
        let grown = before.insert(entries[from].key, node_value(entries[from].node));
        assert(entries[from].key != key);
        lemma_later_keys_keep(entries, from + 1, grown, key);
    }
}

} // verus!
