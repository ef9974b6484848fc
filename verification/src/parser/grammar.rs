//! The grammar of a document, as functions on the items that the scanner
//! yields. The parser computes exactly these.

use super::value::ValueView;
use crate::tokenizer::rules::ScanItem;
use crate::tokenizer::token::TokenView;
use crate::tokenizer::TokenizerError;
use vstd::prelude::*;

verus! {

/// The mathematical content of a [`ParserError`](super::ParserError).
pub enum ParserErrorView {
    /// The items ended where one was required.
    Eof,
    /// A token that the grammar does not allow at its place.
    InvalidToken(TokenView),
    /// A token that is no scalar, where a scalar was required.
    InvalidHuonValue(TokenView),
    /// A scan failure among the items.
    TokenizerError(TokenizerError),
}

/// A value that was read, and the items behind it.
pub struct Read<T> {
    pub value: T,
    pub rest: Seq<ScanItem>,
}

/// An object that was read to its end.
pub struct Block {
    /// The entries of the object.
    pub entries: Map<Seq<char>, ValueView>,
    /// The items behind the object.
    pub rest: Seq<ScanItem>,
    /// How many enclosing objects the line that ended this one closes as well.
    pub pending: nat,
}

/// The value of an entry that was read.
pub struct EntryValue {
    pub value: ValueView,
    pub rest: Seq<ScanItem>,
    /// How many objects, from the one that holds the entry outwards, end with
    /// the value.
    pub pending: nat,
}

/// The nesting level of a line that starts with `spaces` spaces.
pub open spec fn level_of(spaces: nat, unit: nat) -> nat {
    spaces / unit
}

/// The value that a scalar token stands for.
pub open spec fn scalar_value(token: TokenView) -> Option<ValueView> {
    match token {
        TokenView::Str(s) => Some(ValueView::String(s)),
        TokenView::Int(i) => Some(ValueView::Int(i)),
        TokenView::Float(f) => Some(ValueView::Float(f)),
        TokenView::Boolean(b) => Some(ValueView::Boolean(b)),
        TokenView::Null => Some(ValueView::Null),
        _ => None,
    }
}

/// The first item, where the grammar requires a token: the end of the items
/// and a scan failure are both errors.
pub open spec fn required(stream: Seq<ScanItem>) -> Result<TokenView, ParserErrorView> {
    if stream.len() == 0 {
        Err(ParserErrorView::Eof)
    } else {
        match stream[0] {
            Ok(token) => Ok(token),
            Err(e) => Err(ParserErrorView::TokenizerError(e)),
        }
    }
}

/// One scalar literal.
pub open spec fn parse_value_spec(stream: Seq<ScanItem>) -> Result<Read<ValueView>, ParserErrorView> {
    match required(stream) {
        Err(e) => Err(e),
        Ok(token) => match scalar_value(token) {
            Some(value) => Ok(Read { value, rest: stream.drop_first() }),
            None => Err(ParserErrorView::InvalidHuonValue(token)),
        },
    }
}

/// Whether a token only separates the items of a list.
pub open spec fn is_list_gap(token: TokenView) -> bool {
    token is WhiteSpace || token is NewLine || token is Separator
}

/// The items of a list behind its opening bracket, up to the closing one.
/// `items` holds what was read before.
pub open spec fn list_items_spec(stream: Seq<ScanItem>, items: Seq<ValueView>) -> Result<
    Read<Seq<ValueView>>,
    ParserErrorView,
>
    decreases stream.len(),
{
    match required(stream) {
        Err(e) => Err(e),
        Ok(token) => if token is ListEnd {
            Ok(Read { value: items, rest: stream.drop_first() })
        } else if is_list_gap(token) {
            list_items_spec(stream.drop_first(), items)
        } else {
            match scalar_value(token) {
                Some(value) => list_items_spec(stream.drop_first(), items.push(value)),
                None => Err(ParserErrorView::InvalidHuonValue(token)),
            }
        },
    }
}

/// A list, from its opening bracket on.
pub open spec fn parse_list_spec(stream: Seq<ScanItem>) -> Result<
    Read<Seq<ValueView>>,
    ParserErrorView,
> {
    match required(stream) {
        Err(e) => Err(e),
        Ok(_) => list_items_spec(stream.drop_first(), Seq::empty()),
    }
}

/// What stands behind the single space that follows a key: a list or a scalar.
pub open spec fn inline_value_spec(stream: Seq<ScanItem>) -> Result<EntryValue, ParserErrorView> {
    match required(stream) {
        Err(e) => Err(e),
        Ok(token) => if token is ListStart {
            match parse_list_spec(stream) {
                Err(e) => Err(e),
                Ok(list) => Ok(
                    EntryValue { value: ValueView::List(list.value), rest: list.rest, pending: 0 },
                ),
            }
        } else {
            match parse_value_spec(stream) {
                Err(e) => Err(e),
                Ok(scalar) => Ok(EntryValue { value: scalar.value, rest: scalar.rest, pending: 0 }),
            }
        },
    }
}

/// The stream behind the indentation of an entry's line, in an object of
/// nesting level `level`. Indentation of exactly that level is taken, a
/// smaller one is left where it is, a larger one is an error.
pub open spec fn indentation_spec(stream: Seq<ScanItem>, level: nat, unit: nat) -> Result<
    Seq<ScanItem>,
    ParserErrorView,
> {
    match stream[0] {
        Ok(TokenView::WhiteSpace(n)) => if level_of(n, unit) > level {
            Err(ParserErrorView::InvalidToken(TokenView::WhiteSpace(n)))
        } else if level_of(n, unit) == level {
            Ok(stream.drop_first())
        } else {
            Ok(stream)
        },
        _ => Ok(stream),
    }
}

/// The value of an entry, from the item behind its key on: behind exactly one
/// space an inline value, behind a line end an object whose first line is
/// indented more deeply than `level`.
pub open spec fn entry_value_spec(stream: Seq<ScanItem>, level: nat, unit: nat) -> Result<
    EntryValue,
    ParserErrorView,
>
    decreases stream.len(), 0int,
{
    match required(stream) {
        Err(e) => Err(e),
        Ok(TokenView::WhiteSpace(n)) => if n == 1 {
            inline_value_spec(stream.drop_first())
        } else {
            Err(ParserErrorView::InvalidToken(TokenView::WhiteSpace(n)))
        },
        Ok(TokenView::NewLine) => match required(stream.drop_first()) {
            Err(e) => Err(e),
            Ok(TokenView::WhiteSpace(n)) => if level_of(n, unit) > level {
                match parse_object_spec(
                    stream.drop_first().drop_first(),
                    0,
                    level_of(n, unit),
                    unit,
                    Map::empty(),
                ) {
                    Err(e) => Err(e),
                    Ok(block) => Ok(
                        EntryValue {
                            value: ValueView::Object(block.entries),
                            rest: block.rest,
                            pending: block.pending,
                        },
                    ),
                }
            } else {
                Err(ParserErrorView::InvalidToken(TokenView::WhiteSpace(n)))
            },
            Ok(token) => Err(ParserErrorView::InvalidToken(token)),
        },
        Ok(token) => Err(ParserErrorView::InvalidToken(token)),
    }
}

/// One entry of an object of nesting level `level`, from the start of its
/// line on, put into `entries`; then the rest of the object.
///
/// The value of an entry always takes an item (`lemma_entry_value_shrinks`),
/// so the rest of the object is read from fewer items than the entry, and
/// the other case of that test never arises.
pub open spec fn entry_spec(
    stream: Seq<ScanItem>,
    level: nat,
    unit: nat,
    entries: Map<Seq<char>, ValueView>,
) -> Result<Block, ParserErrorView>
    decreases stream.len(), 1int,
{
    if stream.len() == 0 {
        Err(ParserErrorView::Eof)
    } else {
        match indentation_spec(stream, level, unit) {
            Err(e) => Err(e),
            Ok(line) => match required(line) {
                Err(e) => Err(e),
                Ok(TokenView::Identifier(key)) => match entry_value_spec(
                    line.drop_first(),
                    level,
                    unit,
                ) {
                    Err(e) => Err(e),
                    Ok(read) => if read.rest.len() < stream.len() {
                        parse_object_spec(
                            read.rest,
                            read.pending,
                            level,
                            unit,
                            entries.insert(key, read.value),
                        )
                    } else {
                        Err(ParserErrorView::Eof)
                    },
                },
                Ok(token) => Err(ParserErrorView::InvalidToken(token)),
            },
        }
    }
}

/// What a line end within an object of nesting level `level` leads to, seen
/// from the item behind the line end: `Some` where the object ends there, with
/// the number of enclosing objects that end too.
pub open spec fn line_end_closes(stream: Seq<ScanItem>, level: nat, unit: nat) -> Option<nat> {
    if stream.len() == 0 {
        Some(0)
    } else {
        match stream[0] {
            Ok(TokenView::WhiteSpace(n)) => if level_of(n, unit) < level {
                Some((level - level_of(n, unit) - 1) as nat)
            } else {
                None
            },
            Ok(TokenView::Identifier(_)) => if level == 1 {
                Some(0)
            } else {
                None
            },
            _ => None,
        }
    }
}

/// An object of nesting level `level`, from any of its line starts or line
/// ends on. `entries` holds what was read of it before, `pending` the number
/// of objects that the last line end has still to close.
///
/// The object ends where the items end, where objects are still to be closed,
/// and at a line end behind which the indentation is that of an outer level.
/// A line that starts without indentation ends an object of level 1 only.
pub open spec fn parse_object_spec(
    stream: Seq<ScanItem>,
    pending: nat,
    level: nat,
    unit: nat,
    entries: Map<Seq<char>, ValueView>,
) -> Result<Block, ParserErrorView>
    decreases stream.len(), 2int,
{
    if stream.len() == 0 {
        Ok(Block { entries, rest: stream, pending })
    } else {
        match stream[0] {
            Err(e) => Err(ParserErrorView::TokenizerError(e)),
            Ok(token) => if pending > 0 {
                Ok(Block { entries, rest: stream, pending: (pending - 1) as nat })
            } else if token is NewLine {
                let line = stream.drop_first();
                if line.len() > 0 && line[0] is Err {
                    Err(ParserErrorView::TokenizerError(line[0]->Err_0))
                } else {
                    match line_end_closes(line, level, unit) {
                        Some(closed) => Ok(Block { entries, rest: line, pending: closed }),
                        None => parse_object_spec(line, 0, level, unit, entries),
                    }
                }
            } else {
                entry_spec(stream, level, unit, entries)
            },
        }
    }
}

/// A whole document: the object of nesting level 0 that the items hold.
pub open spec fn parse_document(stream: Seq<ScanItem>, unit: nat) -> Result<
    Map<Seq<char>, ValueView>,
    ParserErrorView,
> {
    match parse_object_spec(stream, 0, 0, unit, Map::empty()) {
        Err(e) => Err(e),
        Ok(block) => Ok(block.entries),
    }
}

/// A list takes at least its closing bracket.
pub proof fn lemma_list_items_shrink(stream: Seq<ScanItem>, items: Seq<ValueView>)
    ensures
        list_items_spec(stream, items) matches Ok(read) ==> read.rest.len() < stream.len(),
    decreases stream.len(),
{
    if let Ok(token) = required(stream) {
        if !(token is ListEnd) {
            if is_list_gap(token) {
                lemma_list_items_shrink(stream.drop_first(), items);
            } else if let Some(value) = scalar_value(token) {
                lemma_list_items_shrink(stream.drop_first(), items.push(value));
            }
        }
    }
}

/// The value of an entry takes at least one item.
pub proof fn lemma_entry_value_shrinks(stream: Seq<ScanItem>, level: nat, unit: nat)
    ensures
        entry_value_spec(stream, level, unit) matches Ok(read) ==> read.rest.len() < stream.len(),
    decreases stream.len(), 0int,
{
    match required(stream) {
        Ok(TokenView::WhiteSpace(n)) => {
            if n == 1 {
                let inner = stream.drop_first();
                if let Ok(token) = required(inner) {
                    if token is ListStart {
                        lemma_list_items_shrink(inner.drop_first(), Seq::empty());
                    }
                }
            }
        },
        Ok(TokenView::NewLine) => {
            if let Ok(TokenView::WhiteSpace(n)) = required(stream.drop_first()) {
                if level_of(n, unit) > level {
                    lemma_object_shrinks(
                        stream.drop_first().drop_first(),
                        0,
                        level_of(n, unit),
                        unit,
                        Map::empty(),
                    );
                }
            }
        },
        _ => {},
    }
}

/// An entry and what follows it in its object take at least one item.
pub proof fn lemma_entry_shrinks(
    stream: Seq<ScanItem>,
    level: nat,
    unit: nat,
    entries: Map<Seq<char>, ValueView>,
)
    ensures
        entry_spec(stream, level, unit, entries) matches Ok(block) ==> block.rest.len()
            < stream.len(),
    decreases stream.len(), 1int,
{
    if stream.len() > 0 {
        if let Ok(line) = indentation_spec(stream, level, unit) {
            if let Ok(TokenView::Identifier(key)) = required(line) {
                lemma_entry_value_shrinks(line.drop_first(), level, unit);
                if let Ok(read) = entry_value_spec(line.drop_first(), level, unit) {
                    lemma_object_shrinks(
                        read.rest,
                        read.pending,
                        level,
                        unit,
                        entries.insert(key, read.value),
                    );
                }
            }
        }
    }
}

/// What is left behind an object is no longer than what the object was
/// read from.
pub proof fn lemma_object_shrinks(
    stream: Seq<ScanItem>,
    pending: nat,
    level: nat,
    unit: nat,
    entries: Map<Seq<char>, ValueView>,
)
    ensures
        parse_object_spec(stream, pending, level, unit, entries) matches Ok(block)
            ==> block.rest.len() <= stream.len(),
    decreases stream.len(), 2int,
{
    if stream.len() > 0 {
        if let Ok(token) = stream[0] {
            if pending == 0 {
                if token is NewLine {
                    let line = stream.drop_first();
                    if !(line.len() > 0 && line[0] is Err) && line_end_closes(line, level, unit)
                        is None {
                        lemma_object_shrinks(line, 0, level, unit, entries);
                    }
                } else {
                    lemma_entry_shrinks(stream, level, unit, entries);
                }
            }
        }
    }
}

/// An entry whose value was read is followed by the rest of its object: the
/// value always takes an item, so the rest is read from a shorter sequence.
pub proof fn lemma_entry_unfolds(
    stream: Seq<ScanItem>,
    level: nat,
    unit: nat,
    entries: Map<Seq<char>, ValueView>,
)
    requires
        stream.len() > 0,
        indentation_spec(stream, level, unit) is Ok,
        required(indentation_spec(stream, level, unit)->Ok_0) is Ok,
        required(indentation_spec(stream, level, unit)->Ok_0)->Ok_0 is Identifier,
        entry_value_spec(indentation_spec(stream, level, unit)->Ok_0.drop_first(), level, unit)
            is Ok,
    ensures
        ({
            let line = indentation_spec(stream, level, unit)->Ok_0;
            let key = required(line)->Ok_0->Identifier_0;
            let read = entry_value_spec(line.drop_first(), level, unit)->Ok_0;
            entry_spec(stream, level, unit, entries) == parse_object_spec(
                read.rest,
                read.pending,
                level,
                unit,
                entries.insert(key, read.value),
            )
        }),
{
    let line = indentation_spec(stream, level, unit)->Ok_0;
    lemma_entry_value_shrinks(line.drop_first(), level, unit);
}

} // verus!
