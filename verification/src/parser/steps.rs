//! What the grammar does at each place of a document: at a key, at a line
//! end, at an indentation, and behind a line that dedents.

use super::grammar::{
    entry_spec, entry_value_spec, indentation_spec, inline_value_spec, is_list_gap,
    lemma_entry_value_shrinks, level_of, line_end_closes, list_items_spec, parse_document,
    parse_list_spec, parse_object_spec, required, scalar_value, Block, EntryValue,
    ParserErrorView,
};
use super::value::ValueView;
use crate::tokenizer::rules::ScanItem;
use crate::tokenizer::token::TokenView;
use vstd::prelude::*;

verus! {

/// The items that start with `token` and go on with `rest`.
pub open spec fn cons(token: TokenView, rest: Seq<ScanItem>) -> Seq<ScanItem> {
    seq![Ok(token)] + rest
}

/// The first of such items is the token, the others are `rest`.
pub proof fn lemma_cons(token: TokenView, rest: Seq<ScanItem>)
    ensures
        cons(token, rest).len() == rest.len() + 1,
        cons(token, rest)[0] == Ok::<TokenView, crate::tokenizer::TokenizerError>(token),
        cons(token, rest).drop_first() == rest,
        required(cons(token, rest)) == Ok::<TokenView, ParserErrorView>(token),
{
    assert(cons(token, rest).drop_first() =~= rest);
}

/// At the end of the items an object ends, whatever is still to close.
pub proof fn lemma_object_at_end(
    pending: nat,
    level: nat,
    unit: nat,
    entries: Map<Seq<char>, ValueView>,
)
    ensures
        parse_object_spec(Seq::empty(), pending, level, unit, entries) == Ok::<
            Block,
            ParserErrorView,
        >(Block { entries, rest: Seq::empty(), pending }),
{
}

/// While objects are still to be closed, an object ends at once: it takes
/// nothing and leaves one object less to close.
pub proof fn lemma_object_closes_pending(
    stream: Seq<ScanItem>,
    pending: nat,
    level: nat,
    unit: nat,
    entries: Map<Seq<char>, ValueView>,
)
    requires
        stream.len() > 0,
        stream[0] is Ok,
        pending > 0,
    ensures
        parse_object_spec(stream, pending, level, unit, entries) == Ok::<Block, ParserErrorView>(
            Block { entries, rest: stream, pending: (pending - 1) as nat },
        ),
{
}

/// A line end behind which the object goes on is passed over.
pub proof fn lemma_line_end_continues(
    line: Seq<ScanItem>,
    level: nat,
    unit: nat,
    entries: Map<Seq<char>, ValueView>,
)
    requires
        line.len() > 0,
        line[0] is Ok,
        line_end_closes(line, level, unit) is None,
    ensures
        parse_object_spec(cons(TokenView::NewLine, line), 0, level, unit, entries)
            == parse_object_spec(line, 0, level, unit, entries),
{
    lemma_cons(TokenView::NewLine, line);
}

/// A line end behind which the object ends: the object takes the line end
/// and says how many enclosing objects end with it.
pub proof fn lemma_line_end_closes(
    line: Seq<ScanItem>,
    level: nat,
    unit: nat,
    entries: Map<Seq<char>, ValueView>,
)
    requires
        line.len() > 0 ==> line[0] is Ok,
        line_end_closes(line, level, unit) is Some,
    ensures
        parse_object_spec(cons(TokenView::NewLine, line), 0, level, unit, entries) == Ok::<
            Block,
            ParserErrorView,
        >(Block { entries, rest: line, pending: line_end_closes(line, level, unit)->Some_0 }),
{
    lemma_cons(TokenView::NewLine, line);
}

/// The indentation of the object's own level is taken before a key.
pub proof fn lemma_indentation_skipped(
    spaces: nat,
    line: Seq<ScanItem>,
    level: nat,
    unit: nat,
    entries: Map<Seq<char>, ValueView>,
)
    requires
        level_of(spaces, unit) == level,
        line.len() > 0,
        line[0] is Ok,
        line[0]->Ok_0 is Identifier,
    ensures
        parse_object_spec(cons(TokenView::WhiteSpace(spaces), line), 0, level, unit, entries)
            == parse_object_spec(line, 0, level, unit, entries),
{
    let stream = cons(TokenView::WhiteSpace(spaces), line);
    lemma_cons(TokenView::WhiteSpace(spaces), line);
    assert(parse_object_spec(stream, 0, level, unit, entries) == entry_spec(
        stream,
        level,
        unit,
        entries,
    ));
    assert(parse_object_spec(line, 0, level, unit, entries) == entry_spec(
        line,
        level,
        unit,
        entries,
    ));
    assert(indentation_spec(stream, level, unit) == Ok::<Seq<ScanItem>, ParserErrorView>(line));
    assert(indentation_spec(line, level, unit) == Ok::<Seq<ScanItem>, ParserErrorView>(line));
    lemma_entry_value_shrinks(line.drop_first(), level, unit);
}

/// A key whose value was read: the value goes under the key, and the object
/// goes on behind the value.
pub proof fn lemma_key_step(
    key: Seq<char>,
    rest: Seq<ScanItem>,
    level: nat,
    unit: nat,
    entries: Map<Seq<char>, ValueView>,
)
    requires
        entry_value_spec(rest, level, unit) is Ok,
    ensures
        ({
            let read = entry_value_spec(rest, level, unit)->Ok_0;
            parse_object_spec(cons(TokenView::Identifier(key), rest), 0, level, unit, entries)
                == parse_object_spec(
                read.rest,
                read.pending,
                level,
                unit,
                entries.insert(key, read.value),
            )
        }),
{
    let stream = cons(TokenView::Identifier(key), rest);
    lemma_cons(TokenView::Identifier(key), rest);
    assert(parse_object_spec(stream, 0, level, unit, entries) == entry_spec(
        stream,
        level,
        unit,
        entries,
    ));
    assert(indentation_spec(stream, level, unit) == Ok::<Seq<ScanItem>, ParserErrorView>(stream));
    lemma_entry_value_shrinks(rest, level, unit);
}

/// A key whose value cannot be read: the object fails as the value does.
pub proof fn lemma_key_step_fails(
    key: Seq<char>,
    rest: Seq<ScanItem>,
    level: nat,
    unit: nat,
    entries: Map<Seq<char>, ValueView>,
)
    requires
        entry_value_spec(rest, level, unit) is Err,
    ensures
        parse_object_spec(cons(TokenView::Identifier(key), rest), 0, level, unit, entries) == Err::<
            Block,
            ParserErrorView,
        >(entry_value_spec(rest, level, unit)->Err_0),
{
    let stream = cons(TokenView::Identifier(key), rest);
    lemma_cons(TokenView::Identifier(key), rest);
    assert(parse_object_spec(stream, 0, level, unit, entries) == entry_spec(
        stream,
        level,
        unit,
        entries,
    ));
    assert(indentation_spec(stream, level, unit) == Ok::<Seq<ScanItem>, ParserErrorView>(stream));
}

/// One space and a scalar behind a key: the value is that scalar.
pub proof fn lemma_scalar_value(token: TokenView, rest: Seq<ScanItem>, level: nat, unit: nat)
    requires
        scalar_value(token) is Some,
    ensures
        entry_value_spec(cons(TokenView::WhiteSpace(1), cons(token, rest)), level, unit) == Ok::<
            EntryValue,
            ParserErrorView,
        >(EntryValue { value: scalar_value(token)->Some_0, rest, pending: 0 }),
{
    let inner = cons(token, rest);
    lemma_cons(TokenView::WhiteSpace(1), inner);
    lemma_cons(token, rest);
    assert(inline_value_spec(inner) == Ok::<EntryValue, ParserErrorView>(
        EntryValue { value: scalar_value(token)->Some_0, rest, pending: 0 },
    ));
}

/// A line end and a deeper indentation behind a key: the value is the
/// object of that deeper level.
pub proof fn lemma_nested_value(spaces: nat, block: Seq<ScanItem>, level: nat, unit: nat)
    requires
        level_of(spaces, unit) > level,
    ensures
        entry_value_spec(
            cons(TokenView::NewLine, cons(TokenView::WhiteSpace(spaces), block)),
            level,
            unit,
        ) == match parse_object_spec(block, 0, level_of(spaces, unit), unit, Map::empty()) {
            Err(e) => Err::<EntryValue, ParserErrorView>(e),
            Ok(read) => Ok(
                EntryValue {
                    value: ValueView::Object(read.entries),
                    rest: read.rest,
                    pending: read.pending,
                },
            ),
        },
{
    let line = cons(TokenView::WhiteSpace(spaces), block);
    lemma_cons(TokenView::NewLine, line);
    lemma_cons(TokenView::WhiteSpace(spaces), block);
}

/// A nested block must be indented more deeply than the line of its key.
///
/// Behind a key and a line end, anything but an indentation of a deeper level
/// is an invalid token: the entry is not read as if it stood one level up.
pub proof fn law_shallow_block_is_rejected(
    key: Seq<char>,
    token: TokenView,
    rest: Seq<ScanItem>,
    level: nat,
    unit: nat,
    entries: Map<Seq<char>, ValueView>,
)
    requires
        !(token matches TokenView::WhiteSpace(spaces) && level_of(spaces, unit) > level),
    ensures
        entry_value_spec(cons(TokenView::NewLine, cons(token, rest)), level, unit) == Err::<
            EntryValue,
            ParserErrorView,
        >(ParserErrorView::InvalidToken(token)),
        parse_object_spec(
            cons(TokenView::Identifier(key), cons(TokenView::NewLine, cons(token, rest))),
            0,
            level,
            unit,
            entries,
        ) == Err::<Block, ParserErrorView>(ParserErrorView::InvalidToken(token)),
{
    let line = cons(token, rest);
    let value = cons(TokenView::NewLine, line);
    lemma_cons(TokenView::NewLine, line);
    lemma_cons(token, rest);
    assert(entry_value_spec(value, level, unit) == Err::<EntryValue, ParserErrorView>(
        ParserErrorView::InvalidToken(token),
    ));
    lemma_key_step_fails(key, value, level, unit, entries);
}

/// A document whose first key is followed by a line end and then by anything
/// but an indentation of one level or more is no document: the token behind
/// the line end is invalid, and no object is read.
pub proof fn law_shallow_block_fails_the_document(
    key: Seq<char>,
    token: TokenView,
    rest: Seq<ScanItem>,
    unit: nat,
)
    requires
        !(token matches TokenView::WhiteSpace(spaces) && level_of(spaces, unit) > 0),
    ensures
        parse_document(
            cons(TokenView::Identifier(key), cons(TokenView::NewLine, cons(token, rest))),
            unit,
        ) == Err::<Map<Seq<char>, ValueView>, ParserErrorView>(
            ParserErrorView::InvalidToken(token),
        ),
{
    law_shallow_block_is_rejected(key, token, rest, 0, unit, Map::empty());
}

/// A failure within a nested object is the failure of the object around it.
pub proof fn law_nested_failure_propagates(
    key: Seq<char>,
    spaces: nat,
    block: Seq<ScanItem>,
    level: nat,
    unit: nat,
    entries: Map<Seq<char>, ValueView>,
)
    requires
        level_of(spaces, unit) > level,
        parse_object_spec(block, 0, level_of(spaces, unit), unit, Map::empty()) is Err,
    ensures
        parse_object_spec(
            cons(
                TokenView::Identifier(key),
                cons(TokenView::NewLine, cons(TokenView::WhiteSpace(spaces), block)),
            ),
            0,
            level,
            unit,
            entries,
        ) == Err::<Block, ParserErrorView>(
            parse_object_spec(block, 0, level_of(spaces, unit), unit, Map::empty())->Err_0,
        ),
{
    lemma_nested_value(spaces, block, level, unit);
    lemma_key_step_fails(
        key,
        cons(TokenView::NewLine, cons(TokenView::WhiteSpace(spaces), block)),
        level,
        unit,
        entries,
    );
}

/// A line that dedents by `n` levels closes `n` objects.
///
/// Let a line end within an object of level `level` be followed by an
/// indentation of the lower level `level - n`. Then that object ends there
/// and leaves `n - 1` objects to close. Every object around it that comes to
/// the indentation while objects are left to close ends too, takes nothing and
/// leaves one less. The object that comes to it with none left is the one of
/// level `level - n`: it takes the indentation and goes on with the key behind
/// it, so the entry of the dedented line goes into that object.
pub proof fn law_dedent_closes_levels(
    spaces: nat,
    line: Seq<ScanItem>,
    level: nat,
    n: nat,
    unit: nat,
    inner: Map<Seq<char>, ValueView>,
    between: Map<Seq<char>, ValueView>,
    between_level: nat,
    left: nat,
    outer: Map<Seq<char>, ValueView>,
)
    requires
        1 <= n <= level,
        level_of(spaces, unit) == level - n,
        line.len() > 0,
        line[0] is Ok,
        line[0]->Ok_0 is Identifier,
        0 < left,
    ensures
        parse_object_spec(
            cons(TokenView::NewLine, cons(TokenView::WhiteSpace(spaces), line)),
            0,
            level,
            unit,
            inner,
        ) == Ok::<Block, ParserErrorView>(
            Block {
                entries: inner,
                rest: cons(TokenView::WhiteSpace(spaces), line),
                pending: (n - 1) as nat,
            },
        ),
        parse_object_spec(
            cons(TokenView::WhiteSpace(spaces), line),
            left,
            between_level,
            unit,
            between,
        ) == Ok::<Block, ParserErrorView>(
            Block {
                entries: between,
                rest: cons(TokenView::WhiteSpace(spaces), line),
                pending: (left - 1) as nat,
            },
        ),
        parse_object_spec(
            cons(TokenView::WhiteSpace(spaces), line),
            0,
            (level - n) as nat,
            unit,
            outer,
        ) == parse_object_spec(line, 0, (level - n) as nat, unit, outer),
{
    let dedented = cons(TokenView::WhiteSpace(spaces), line);
    lemma_cons(TokenView::WhiteSpace(spaces), line);
    lemma_line_end_closes(dedented, level, unit, inner);
    lemma_object_closes_pending(dedented, left, between_level, unit, between);
    lemma_indentation_skipped(spaces, line, (level - n) as nat, unit, outer);
}

/// The items of a list are the scalars between its brackets, in order: what
/// separates them does not count.
pub proof fn lemma_list_items(
    tokens: Seq<TokenView>,
    rest: Seq<ScanItem>,
    items: Seq<ValueView>,
)
    requires
        forall|i: int|
            0 <= i < tokens.len() ==> is_list_gap(#[trigger] tokens[i]) || scalar_value(tokens[i])
                is Some,
    ensures
        list_items_spec(list_tokens(tokens, cons(TokenView::ListEnd, rest)), items) == Ok::<
            super::grammar::Read<Seq<ValueView>>,
            ParserErrorView,
        >(super::grammar::Read { value: items + list_values(tokens), rest }),
    decreases tokens.len(),
{
    let closing = cons(TokenView::ListEnd, rest);
    lemma_cons(TokenView::ListEnd, rest);
    if tokens.len() == 0 {
        assert(items + list_values(tokens) =~= items);
    } else {
        let first = tokens[0];
        let more = tokens.drop_first();
        let stream = list_tokens(tokens, closing);
        lemma_cons(first, list_tokens(more, closing));
        assert forall|i: int| 0 <= i < more.len() implies is_list_gap(#[trigger] more[i])
            || scalar_value(more[i]) is Some by {
            assert(more[i] == tokens[i + 1]);
        }
        if is_list_gap(first) {
            lemma_list_items(more, rest, items);
        } else {
            lemma_list_items(more, rest, items.push(scalar_value(first)->Some_0));
            assert(items.push(scalar_value(first)->Some_0) + list_values(more) =~= items
                + list_values(tokens));
        }
    }
}

/// The tokens between the brackets of a list, followed by `rest`.
pub open spec fn list_tokens(tokens: Seq<TokenView>, rest: Seq<ScanItem>) -> Seq<ScanItem>
    decreases tokens.len(),
{
    if tokens.len() == 0 {
        rest
    } else {
        cons(tokens[0], list_tokens(tokens.drop_first(), rest))
    }
}

/// The values of the scalars among `tokens`, in order.
pub open spec fn list_values(tokens: Seq<TokenView>) -> Seq<ValueView>
    decreases tokens.len(),
{
    if tokens.len() == 0 {
        Seq::empty()
    } else {
        match scalar_value(tokens[0]) {
            Some(value) => seq![value] + list_values(tokens.drop_first()),
            None => list_values(tokens.drop_first()),
        }
    }
}

/// One space and a bracketed list behind a key: the value is the list of the
/// scalars between the brackets.
pub proof fn lemma_list_value(tokens: Seq<TokenView>, rest: Seq<ScanItem>, level: nat, unit: nat)
    requires
        forall|i: int|
            0 <= i < tokens.len() ==> is_list_gap(#[trigger] tokens[i]) || scalar_value(tokens[i])
                is Some,
    ensures
        entry_value_spec(
            cons(
                TokenView::WhiteSpace(1),
                cons(TokenView::ListStart, list_tokens(tokens, cons(TokenView::ListEnd, rest))),
            ),
            level,
            unit,
        ) == Ok::<EntryValue, ParserErrorView>(
            EntryValue { value: ValueView::List(list_values(tokens)), rest, pending: 0 },
        ),
{
    let body = list_tokens(tokens, cons(TokenView::ListEnd, rest));
    let inner = cons(TokenView::ListStart, body);
    lemma_cons(TokenView::WhiteSpace(1), inner);
    lemma_cons(TokenView::ListStart, body);
    lemma_list_items(tokens, rest, Seq::empty());
    assert(Seq::<ValueView>::empty() + list_values(tokens) =~= list_values(tokens));
    assert(parse_list_spec(inner) == list_items_spec(body, Seq::empty()));
}

} // verus!
