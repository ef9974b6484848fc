//! The width of the indent unit does not matter: two sequences of tokens that
//! differ only in how wide the indentation of their lines is written, and
//! not in its level, are read alike.

use super::document::{
    behind_entry, indented, line_ends, render_document, render_entries, render_node,
    sound_entries, sound_node, Entry, Node,
};
use super::grammar::{
    entry_spec, entry_value_spec, indentation_spec, inline_value_spec, is_list_gap, level_of,
    line_end_closes, list_items_spec, parse_document, parse_list_spec, parse_object_spec,
    parse_value_spec, required, scalar_value, Block, EntryValue, ParserErrorView, Read,
};
use super::reading::lemma_level_of_indentation;
use super::steps::{cons, lemma_cons, list_tokens};
use super::value::ValueView;
use super::writing::{document_text, entries_writable, law_document_text_is_scanned};
use crate::tokenizer::rules::{tokens_from, ScanItem};
use crate::tokenizer::token::TokenView;
use crate::tokenizer::TokenizerError;
use vstd::prelude::*;

verus! {

/// Where in a document an item stands.
pub enum Place {
    /// At the start of a line or behind a value: where indentation counts.
    Line,
    /// Directly behind a key.
    AfterKey,
    /// Behind the space that follows a key.
    Inline,
    /// Between the brackets of a list.
    List,
}

/// The place of the item behind `item`, which stands at `place`.
pub open spec fn next_place(place: Place, item: ScanItem) -> Place {
    match place {
        Place::Line => if item matches Ok(TokenView::Identifier(_)) {
            Place::AfterKey
        } else {
            Place::Line
        },
        Place::AfterKey => if item matches Ok(TokenView::WhiteSpace(_)) {
            Place::Inline
        } else {
            Place::Line
        },
        Place::Inline => if item == Ok::<TokenView, TokenizerError>(TokenView::ListStart) {
            Place::List
        } else {
            Place::Line
        },
        Place::List => if item == Ok::<TokenView, TokenizerError>(TokenView::ListEnd) {
            Place::Line
        } else {
            Place::List
        },
    }
}

/// Whether two items at `place` are the same for a reader with the indent
/// unit `unit` of the first and a reader with the unit `other` of the
/// second: they are equal, or, where indentation counts, they are
/// indentations of the same level.
pub open spec fn same_item(a: ScanItem, b: ScanItem, unit: nat, other: nat, place: Place) -> bool {
    if place is Line && a matches Ok(TokenView::WhiteSpace(_)) {
        b matches Ok(TokenView::WhiteSpace(_)) && level_of(
            a->Ok_0->WhiteSpace_0,
            unit,
        ) == level_of(b->Ok_0->WhiteSpace_0, other)
    } else {
        a == b
    }
}

/// Whether two sequences of items, which start at `place`, are the same but
/// for the width of their indentations.
pub open spec fn same_lines(
    first: Seq<ScanItem>,
    second: Seq<ScanItem>,
    unit: nat,
    other: nat,
    place: Place,
) -> bool
    decreases first.len(),
{
    first.len() == second.len() && (first.len() > 0 ==> same_item(
        first[0],
        second[0],
        unit,
        other,
        place,
    ) && same_lines(
        first.drop_first(),
        second.drop_first(),
        unit,
        other,
        next_place(place, first[0]),
    ))
}

/// Whether two readings of objects agree: both fail, or both yield the same
/// entries, close as many objects, and leave items that are the same but for
/// the width of their indentations.
pub open spec fn same_block(
    first: Result<Block, ParserErrorView>,
    second: Result<Block, ParserErrorView>,
    unit: nat,
    other: nat,
) -> bool {
    match (first, second) {
        (Ok(a), Ok(b)) => a.entries == b.entries && a.pending == b.pending && same_lines(
            a.rest,
            b.rest,
            unit,
            other,
            Place::Line,
        ),
        (Err(_), Err(_)) => true,
        _ => false,
    }
}

/// Whether two readings of values agree.
pub open spec fn same_value(
    first: Result<EntryValue, ParserErrorView>,
    second: Result<EntryValue, ParserErrorView>,
    unit: nat,
    other: nat,
) -> bool {
    match (first, second) {
        (Ok(a), Ok(b)) => a.value == b.value && a.pending == b.pending && same_lines(
            a.rest,
            b.rest,
            unit,
            other,
            Place::Line,
        ),
        (Err(_), Err(_)) => true,
        _ => false,
    }
}

/// Whether two readings of lists agree.
pub open spec fn same_list(
    first: Result<Read<Seq<ValueView>>, ParserErrorView>,
    second: Result<Read<Seq<ValueView>>, ParserErrorView>,
    unit: nat,
    other: nat,
) -> bool {
    match (first, second) {
        (Ok(a), Ok(b)) => a.value == b.value && same_lines(
            a.rest,
            b.rest,
            unit,
            other,
            Place::Line,
        ),
        (Err(_), Err(_)) => true,
        _ => false,
    }
}

/// The items of two lists that are the same are read alike.
proof fn lemma_list_items_same(
    first: Seq<ScanItem>,
    second: Seq<ScanItem>,
    items: Seq<ValueView>,
    unit: nat,
    other: nat,
)
    requires
        same_lines(first, second, unit, other, Place::List),
    ensures
        same_list(list_items_spec(first, items), list_items_spec(second, items), unit, other),
    decreases first.len(),
{
    if first.len() > 0 {
        assert(first[0] == second[0]);
        if let Ok(token) = first[0] {
            if token is ListEnd {
            } else if is_list_gap(token) {
                lemma_list_items_same(first.drop_first(), second.drop_first(), items, unit, other);
            } else if let Some(value) = scalar_value(token) {
                lemma_list_items_same(
                    first.drop_first(),
                    second.drop_first(),
                    items.push(value),
                    unit,
                    other,
                );
            }
        }
    }
}

/// Two inline values that are the same are read alike.
proof fn lemma_inline_same(first: Seq<ScanItem>, second: Seq<ScanItem>, unit: nat, other: nat)
    requires
        same_lines(first, second, unit, other, Place::Inline),
    ensures
        same_value(inline_value_spec(first), inline_value_spec(second), unit, other),
{
    if first.len() > 0 {
        assert(first[0] == second[0]);
        if let Ok(token) = first[0] {
            if token is ListStart {
                lemma_list_items_same(
                    first.drop_first(),
                    second.drop_first(),
                    Seq::empty(),
                    unit,
                    other,
                );
                assert(parse_list_spec(first) == list_items_spec(first.drop_first(), Seq::empty()));
                assert(parse_list_spec(second) == list_items_spec(
                    second.drop_first(),
                    Seq::empty(),
                ));
            } else {
                assert(parse_value_spec(first) is Ok ==> parse_value_spec(first)->Ok_0.rest
                    == first.drop_first());
            }
        }
    }
}

/// Two values behind their keys that are the same are read alike.
proof fn lemma_entry_value_same(
    first: Seq<ScanItem>,
    second: Seq<ScanItem>,
    level: nat,
    unit: nat,
    other: nat,
)
    requires
        same_lines(first, second, unit, other, Place::AfterKey),
    ensures
        same_value(
            entry_value_spec(first, level, unit),
            entry_value_spec(second, level, other),
            unit,
            other,
        ),
    decreases first.len(), 0int,
{
    if first.len() > 0 {
        assert(first[0] == second[0]);
        let first_rest = first.drop_first();
        let second_rest = second.drop_first();
        match first[0] {
            Ok(TokenView::WhiteSpace(n)) => {
                if n == 1 {
                    lemma_inline_same(first_rest, second_rest, unit, other);
                }
            },
            Ok(TokenView::NewLine) => {
                assert(same_lines(first_rest, second_rest, unit, other, Place::Line));
                if first_rest.len() > 0 {
                    assert(same_item(first_rest[0], second_rest[0], unit, other, Place::Line));
                    if let Ok(TokenView::WhiteSpace(n)) = first_rest[0] {
                        let m = second_rest[0]->Ok_0->WhiteSpace_0;
                        assert(level_of(n, unit) == level_of(m, other));
                        if level_of(n, unit) > level {
                            lemma_object_same(
                                first_rest.drop_first(),
                                second_rest.drop_first(),
                                0,
                                level_of(n, unit),
                                unit,
                                other,
                                Map::empty(),
                            );
                        }
                    } else {
                        assert(first_rest[0] == second_rest[0]);
                    }
                }
            },
            _ => {},
        }
    }
}

/// Two entries that are the same, and what follows them in their objects,
/// are read alike.
proof fn lemma_entry_same(
    first: Seq<ScanItem>,
    second: Seq<ScanItem>,
    level: nat,
    unit: nat,
    other: nat,
    entries: Map<Seq<char>, ValueView>,
)
    requires
        same_lines(first, second, unit, other, Place::Line),
    ensures
        same_block(
            entry_spec(first, level, unit, entries),
            entry_spec(second, level, other, entries),
            unit,
            other,
        ),
    decreases first.len(), 1int,
{
    if first.len() > 0 {
        assert(same_item(first[0], second[0], unit, other, Place::Line));
        let first_line = indentation_spec(first, level, unit);
        let second_line = indentation_spec(second, level, other);
        assert(first_line is Ok <==> second_line is Ok);
        if let Ok(line) = first_line {
            let other_line = second_line->Ok_0;
            assert(same_lines(line, other_line, unit, other, Place::Line));
            if line.len() > 0 {
                assert(same_item(line[0], other_line[0], unit, other, Place::Line));
                if let Ok(TokenView::Identifier(key)) = line[0] {
                    assert(line[0] == other_line[0]);
                    lemma_entry_value_same(
                        line.drop_first(),
                        other_line.drop_first(),
                        level,
                        unit,
                        other,
                    );
                    if let Ok(read) = entry_value_spec(line.drop_first(), level, unit) {
                        let other_read = entry_value_spec(
                            other_line.drop_first(),
                            level,
                            other,
                        )->Ok_0;
                        if read.rest.len() < first.len() {
                            lemma_object_same(
                                read.rest,
                                other_read.rest,
                                read.pending,
                                level,
                                unit,
                                other,
                                entries.insert(key, read.value),
                            );
                        }
                    }
                } else {
                    assert(required(line) is Err || !(required(line)->Ok_0 is Identifier));
                    assert(required(other_line) is Err || !(required(other_line)->Ok_0
                        is Identifier));
                }
            }
        }
    }
}

/// Two objects that are the same are read alike.
proof fn lemma_object_same(
    first: Seq<ScanItem>,
    second: Seq<ScanItem>,
    pending: nat,
    level: nat,
    unit: nat,
    other: nat,
    entries: Map<Seq<char>, ValueView>,
)
    requires
        same_lines(first, second, unit, other, Place::Line),
    ensures
        same_block(
            parse_object_spec(first, pending, level, unit, entries),
            parse_object_spec(second, pending, level, other, entries),
            unit,
            other,
        ),
    decreases first.len(), 2int,
{
    if first.len() > 0 {
        assert(same_item(first[0], second[0], unit, other, Place::Line));
        if let Ok(token) = first[0] {
            assert(second[0] is Ok);
            if pending > 0 {
            } else if token is NewLine {
                assert(first[0] == second[0]);
                let line = first.drop_first();
                let other_line = second.drop_first();
                assert(same_lines(line, other_line, unit, other, Place::Line));
                if line.len() > 0 {
                    assert(same_item(line[0], other_line[0], unit, other, Place::Line));
                    assert(line_end_closes(line, level, unit) == line_end_closes(
                        other_line,
                        level,
                        other,
                    ));
                    if !(line[0] is Err) && line_end_closes(line, level, unit) is None {
                        lemma_object_same(line, other_line, 0, level, unit, other, entries);
                    }
                }
            } else {
                assert(!(second[0]->Ok_0 is NewLine));
                lemma_entry_same(first, second, level, unit, other, entries);
                assert(parse_object_spec(first, pending, level, unit, entries) == entry_spec(
                    first,
                    level,
                    unit,
                    entries,
                ));
                assert(parse_object_spec(second, pending, level, other, entries) == entry_spec(
                    second,
                    level,
                    other,
                    entries,
                ));
            }
        } else {
            assert(first[0] == second[0]);
        }
    } else {
        assert(second =~= first);
    }
}

/// Whether two readings of documents agree: both fail, or both yield the
/// same object.
pub open spec fn same_reading(
    first: Result<Map<Seq<char>, ValueView>, ParserErrorView>,
    second: Result<Map<Seq<char>, ValueView>, ParserErrorView>,
) -> bool {
    match (first, second) {
        (Ok(a), Ok(b)) => a == b,
        (Err(_), Err(_)) => true,
        _ => false,
    }
}

/// Items that are the same stay so with items in front that are the same.
proof fn lemma_same_cons(
    a: TokenView,
    b: TokenView,
    first: Seq<ScanItem>,
    second: Seq<ScanItem>,
    unit: nat,
    other: nat,
    place: Place,
)
    requires
        same_item(Ok(a), Ok(b), unit, other, place),
        same_lines(first, second, unit, other, next_place(place, Ok(a))),
    ensures
        same_lines(cons(a, first), cons(b, second), unit, other, place),
{
    lemma_cons(a, first);
    lemma_cons(b, second);
}

/// Items that are the same stay so behind as many line ends.
proof fn lemma_line_ends_same(
    count: nat,
    first: Seq<ScanItem>,
    second: Seq<ScanItem>,
    unit: nat,
    other: nat,
)
    requires
        same_lines(first, second, unit, other, Place::Line),
    ensures
        same_lines(line_ends(count, first), line_ends(count, second), unit, other, Place::Line),
    decreases count,
{
    if count > 0 {
        lemma_line_ends_same((count - 1) as nat, first, second, unit, other);
        lemma_same_cons(
            TokenView::NewLine,
            TokenView::NewLine,
            line_ends((count - 1) as nat, first),
            line_ends((count - 1) as nat, second),
            unit,
            other,
            Place::Line,
        );
    }
}

/// Items that are the same stay so behind the indentation of one level,
/// written with the one unit and with the other.
proof fn lemma_indented_same(
    level: nat,
    first: Seq<ScanItem>,
    second: Seq<ScanItem>,
    unit: nat,
    other: nat,
)
    requires
        unit > 0,
        other > 0,
        same_lines(first, second, unit, other, Place::Line),
    ensures
        same_lines(
            indented(level, unit, first),
            indented(level, other, second),
            unit,
            other,
            Place::Line,
        ),
{
    if level > 0 {
        lemma_level_of_indentation(level, unit);
        lemma_level_of_indentation(level, other);
        lemma_same_cons(
            TokenView::WhiteSpace(level * unit),
            TokenView::WhiteSpace(level * other),
            first,
            second,
            unit,
            other,
            Place::Line,
        );
    }
}

/// The tokens of a list, with items behind it that are the same, are the
/// same.
proof fn lemma_list_tokens_same(
    tokens: Seq<TokenView>,
    first: Seq<ScanItem>,
    second: Seq<ScanItem>,
    unit: nat,
    other: nat,
)
    requires
        sound_node(Node::List(tokens)),
        same_lines(first, second, unit, other, Place::Line),
    ensures
        same_lines(
            list_tokens(tokens, cons(TokenView::ListEnd, first)),
            list_tokens(tokens, cons(TokenView::ListEnd, second)),
            unit,
            other,
            Place::List,
        ),
    decreases tokens.len(),
{
    if tokens.len() == 0 {
        lemma_same_cons(
            TokenView::ListEnd,
            TokenView::ListEnd,
            first,
            second,
            unit,
            other,
            Place::List,
        );
    } else {
        let more = tokens.drop_first();
        assert forall|i: int| 0 <= i < more.len() implies is_list_gap(#[trigger] more[i])
            || scalar_value(more[i]) is Some by {
            assert(more[i] == tokens[i + 1]);
        }
        assert(sound_node(Node::List(more)));
        lemma_list_tokens_same(more, first, second, unit, other);
        assert(is_list_gap(tokens[0]) || scalar_value(tokens[0]) is Some);
        lemma_same_cons(
            tokens[0],
            tokens[0],
            list_tokens(more, cons(TokenView::ListEnd, first)),
            list_tokens(more, cons(TokenView::ListEnd, second)),
            unit,
            other,
            Place::List,
        );
    }
}

/// The tokens of entries, written with the one unit and with the other, are
/// the same but for the width of their indentations.
proof fn lemma_entries_same(
    entries: Seq<Entry>,
    from: int,
    level: nat,
    unit: nat,
    other: nat,
    first: Seq<ScanItem>,
    second: Seq<ScanItem>,
)
    requires
        unit > 0,
        other > 0,
        0 <= from,
        sound_entries(entries, from),
        same_lines(first, second, unit, other, Place::Line),
    ensures
        same_lines(
            render_entries(entries, from, level, unit, first),
            render_entries(entries, from, level, other, second),
            unit,
            other,
            Place::Line,
        ),
    decreases entries, entries.len() - from, 0int,
{
    if from < entries.len() {
        let key = entries[from].key;
        let node = entries[from].node;
        let first_behind = behind_entry(entries, from, level, unit, first);
        let second_behind = behind_entry(entries, from, level, other, second);
        assert(sound_node(node));
        if from + 1 < entries.len() {
            let first_following = render_entries(entries, from + 1, level, unit, first);
            let second_following = render_entries(entries, from + 1, level, other, second);
            assert(sound_entries(entries, from + 1));
            lemma_entries_same(entries, from + 1, level, unit, other, first, second);
            lemma_indented_same(level, first_following, second_following, unit, other);
            lemma_same_cons(
                TokenView::NewLine,
                TokenView::NewLine,
                indented(level, unit, first_following),
                indented(level, other, second_following),
                unit,
                other,
                Place::Line,
            );
            lemma_line_ends_same(
                entries[from].blank_lines,
                cons(TokenView::NewLine, indented(level, unit, first_following)),
                cons(TokenView::NewLine, indented(level, other, second_following)),
                unit,
                other,
            );
        } else {
            lemma_line_ends_same(entries[from].blank_lines, first, second, unit, other);
        }
        assert(same_lines(first_behind, second_behind, unit, other, Place::Line));
        lemma_node_same(node, level, unit, other, first_behind, second_behind);
        lemma_same_cons(
            TokenView::Identifier(key),
            TokenView::Identifier(key),
            render_node(node, level, unit, first_behind),
            render_node(node, level, other, second_behind),
            unit,
            other,
            Place::Line,
        );
    }
}

/// The tokens of a node, written with the one unit and with the other, are
/// the same but for the width of their indentations.
proof fn lemma_node_same(
    node: Node,
    level: nat,
    unit: nat,
    other: nat,
    first: Seq<ScanItem>,
    second: Seq<ScanItem>,
)
    requires
        unit > 0,
        other > 0,
        sound_node(node),
        same_lines(first, second, unit, other, Place::Line),
    ensures
        same_lines(
            render_node(node, level, unit, first),
            render_node(node, level, other, second),
            unit,
            other,
            Place::AfterKey,
        ),
    decreases node, 1int,
{
    match node {
        Node::Scalar(token) => {
            lemma_same_cons(token, token, first, second, unit, other, Place::Inline);
            lemma_same_cons(
                TokenView::WhiteSpace(1),
                TokenView::WhiteSpace(1),
                cons(token, first),
                cons(token, second),
                unit,
                other,
                Place::AfterKey,
            );
        },
        Node::List(tokens) => {
            let first_body = list_tokens(tokens, cons(TokenView::ListEnd, first));
            let second_body = list_tokens(tokens, cons(TokenView::ListEnd, second));
            lemma_list_tokens_same(tokens, first, second, unit, other);
            lemma_same_cons(
                TokenView::ListStart,
                TokenView::ListStart,
                first_body,
                second_body,
                unit,
                other,
                Place::Inline,
            );
            lemma_same_cons(
                TokenView::WhiteSpace(1),
                TokenView::WhiteSpace(1),
                cons(TokenView::ListStart, first_body),
                cons(TokenView::ListStart, second_body),
                unit,
                other,
                Place::AfterKey,
            );
        },
        Node::Object { step, entries } => {
            let first_block = render_entries(entries, 0, level + step, unit, first);
            let second_block = render_entries(entries, 0, level + step, other, second);
            assert(sound_entries(entries, 0));
            lemma_entries_same(entries, 0, level + step, unit, other, first, second);
            lemma_level_of_indentation(level + step, unit);
            lemma_level_of_indentation(level + step, other);
            lemma_same_cons(
                TokenView::WhiteSpace((level + step) * unit),
                TokenView::WhiteSpace((level + step) * other),
                first_block,
                second_block,
                unit,
                other,
                Place::Line,
            );
            lemma_same_cons(
                TokenView::NewLine,
                TokenView::NewLine,
                cons(TokenView::WhiteSpace((level + step) * unit), first_block),
                cons(TokenView::WhiteSpace((level + step) * other), second_block),
                unit,
                other,
                Place::AfterKey,
            );
        },
    }
}

/// The tree depends on the number of indent units of each line, not on the
/// width of the unit.
///
/// Let a document be written once with one indent unit and once with
/// another, every line indented by its level times the unit. Then a reader
/// with the first unit reads the first as a reader with the second reads the
/// second: both fail, or both yield the same object. This holds of every
/// document, also of one in which a line without indentation stands right
/// behind a line two levels deep.
pub proof fn law_unit_width_does_not_matter(document: Seq<Entry>, unit: nat, other: nat)
    requires
        unit > 0,
        other > 0,
        sound_entries(document, 0),
    ensures
        same_reading(
            parse_document(render_document(document, unit), unit),
            parse_document(render_document(document, other), other),
        ),
{
    let first = render_document(document, unit);
    let second = render_document(document, other);
    lemma_entries_same(document, 0, 0, unit, other, Seq::empty(), Seq::empty());
    lemma_object_same(first, second, 0, 0, unit, other, Map::empty());
}

/// The same of the texts of documents: the text written with one indent unit
/// and read with it, and the text written with another and read with that,
/// are read alike.
pub proof fn law_indent_unit_does_not_matter(document: Seq<Entry>, unit: nat, other: nat)
    requires
        unit > 0,
        other > 0,
        sound_entries(document, 0),
        entries_writable(document, 0),
    ensures
        same_reading(
            parse_document(tokens_from(document_text(document, unit), 0), unit),
            parse_document(tokens_from(document_text(document, other), 0), other),
        ),
{
    law_document_text_is_scanned(document, unit);
    law_document_text_is_scanned(document, other);
    law_unit_width_does_not_matter(document, unit, other);
}

} // verus!
