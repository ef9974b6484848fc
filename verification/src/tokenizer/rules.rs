//! The scanning rules: which token stands at a position of the text.

use super::number::{int_literal, is_digit, is_float_literal};
use super::token::TokenView;
use super::TokenizerError;
use vstd::prelude::*;

verus! {

/// What one step of the scanner yields: a token or a scan failure.
pub type ScanItem = Result<TokenView, TokenizerError>;

/// The kinds of character of which the scanner reads maximal runs.
pub enum CharClass {
    /// ASCII letters, digits and `_`.
    Identifier,
    /// ASCII digits and `.`.
    Number,
    /// The space character.
    Space,
    /// Everything but the double quote.
    Unquoted,
}

pub open spec fn is_identifier_char(c: char) -> bool {
    ('a' <= c <= 'z') || ('A' <= c <= 'Z') || is_digit(c) || c == '_'
}

pub open spec fn in_class(class: CharClass, c: char) -> bool {
    match class {
        CharClass::Identifier => is_identifier_char(c),
        CharClass::Number => is_digit(c) || c == '.',
        CharClass::Space => c == ' ',
        CharClass::Unquoted => c != '"',
    }
}

/// The end of the maximal run of characters of `class` that starts at `from`:
/// the first position at or after `from` whose character is not of the class,
/// or the length of the text.
pub open spec fn run_end(text: Seq<char>, from: int, class: CharClass) -> int
    decreases text.len() - from,
{
    if 0 <= from < text.len() && in_class(class, text[from]) {
        run_end(text, from + 1, class)
    } else {
        from
    }
}

/// One step of the scanner: the item found and the position after it.
pub struct Scanned {
    pub item: ScanItem,
    pub next: int,
}

/// The token of a keyword: `true`, `false` or `null`.
pub open spec fn keyword(word: Seq<char>) -> Option<TokenView> {
    if word == seq!['t', 'r', 'u', 'e'] {
        Some(TokenView::Boolean(true))
    } else if word == seq!['f', 'a', 'l', 's', 'e'] {
        Some(TokenView::Boolean(false))
    } else if word == seq!['n', 'u', 'l', 'l'] {
        Some(TokenView::Null)
    } else {
        None
    }
}

/// A quoted string opens at `pos`: it runs to the next double quote, and the
/// token holds what stands between the two. There are no escapes.
pub open spec fn scan_string(text: Seq<char>, pos: int) -> Scanned {
    let close = run_end(text, pos + 1, CharClass::Unquoted);
    if close < text.len() {
        Scanned { item: Ok(TokenView::Str(text.subrange(pos + 1, close))), next: close + 1 }
    } else {
        Scanned { item: Err(TokenizerError::EOF), next: text.len() as int }
    }
}

/// A number opens at `pos` with a digit or `-`: it takes the digits and dots
/// that follow. With a dot the text must be a floating-point literal, without
/// one an integer literal.
pub open spec fn scan_number(text: Seq<char>, pos: int) -> Scanned {
    let end = run_end(text, pos + 1, CharClass::Number);
    let literal = text.subrange(pos, end);
    let item = if literal.contains('.') {
        if is_float_literal(literal) {
            Ok(TokenView::Float(literal))
        } else {
            Err(TokenizerError::ParseFloatError)
        }
    } else {
        match int_literal(literal) {
            Ok(value) => Ok(TokenView::Int(value)),
            Err(kind) => Err(TokenizerError::ParseIntError(kind)),
        }
    };
    Scanned { item, next: end }
}

/// A word opens at `pos`: a run of identifier characters. Directly followed by
/// `:` it is a key, and the colon is taken with it. Otherwise it must be one of
/// the keywords.
pub open spec fn scan_word(text: Seq<char>, pos: int) -> Scanned {
    let end = run_end(text, pos + 1, CharClass::Identifier);
    let word = text.subrange(pos, end);
    if end < text.len() && text[end] == ':' {
        Scanned { item: Ok(TokenView::Identifier(word)), next: end + 1 }
    } else {
        match keyword(word) {
            Some(token) => Scanned { item: Ok(token), next: end },
            None => Scanned { item: Err(TokenizerError::UnexpectedCharacter(text[pos])), next: end },
        }
    }
}

/// A carriage return stands at `pos`: it is a line end only together with the
/// line feed that follows it.
pub open spec fn scan_carriage_return(text: Seq<char>, pos: int) -> Scanned {
    if pos + 1 < text.len() {
        if text[pos + 1] == '\n' {
            Scanned { item: Ok(TokenView::NewLine), next: pos + 2 }
        } else {
            Scanned { item: Err(TokenizerError::UnexpectedCharacter(text[pos + 1])), next: pos + 1 }
        }
    } else {
        Scanned { item: Err(TokenizerError::EOF), next: pos + 1 }
    }
}

/// The item that starts at `pos`, for `0 <= pos < text.len()`. The rules are
/// tried in this order.
pub open spec fn scan(text: Seq<char>, pos: int) -> Scanned {
    let c = text[pos];
    if c == '"' {
        scan_string(text, pos)
    } else if is_digit(c) || c == '-' {
        scan_number(text, pos)
    } else if is_identifier_char(c) {
        scan_word(text, pos)
    } else if c == '[' {
        Scanned { item: Ok(TokenView::ListStart), next: pos + 1 }
    } else if c == ']' {
        Scanned { item: Ok(TokenView::ListEnd), next: pos + 1 }
    } else if c == ',' {
        Scanned { item: Ok(TokenView::Separator), next: pos + 1 }
    } else if c == '\n' {
        Scanned { item: Ok(TokenView::NewLine), next: pos + 1 }
    } else if c == '\r' {
        scan_carriage_return(text, pos)
    } else if c == ' ' {
        let end = run_end(text, pos + 1, CharClass::Space);
        Scanned { item: Ok(TokenView::WhiteSpace((end - pos) as nat)), next: end }
    } else {
        Scanned { item: Err(TokenizerError::UnexpectedCharacter(c)), next: pos + 1 }
    }
}

/// Everything that the scanner yields from `pos` to the end of the text. A
/// failure does not end the sequence: scanning goes on behind it.
pub open spec fn tokens_from(text: Seq<char>, pos: int) -> Seq<ScanItem>
    decreases text.len() - pos,
{
    if 0 <= pos < text.len() && pos < scan(text, pos).next <= text.len() {
        seq![scan(text, pos).item] + tokens_from(text, scan(text, pos).next)
    } else {
        Seq::empty()
    }
}

/// The first scan failure of a sequence of items, if there is one.
pub open spec fn first_failure(items: Seq<ScanItem>) -> Option<TokenizerError>
    decreases items.len(),
{
    if items.len() == 0 {
        None
    } else {
        match items[0] {
            Err(e) => Some(e),
            Ok(_) => first_failure(items.drop_first()),
        }
    }
}

/// A run ends between its start and the end of the text, holds only
/// characters of its class, and is not followed by one.
pub proof fn lemma_run_end(text: Seq<char>, from: int, class: CharClass)
    requires
        0 <= from <= text.len(),
    ensures
        from <= run_end(text, from, class) <= text.len(),
        forall|i: int| from <= i < run_end(text, from, class) ==> in_class(class, #[trigger] text[i]),
        run_end(text, from, class) < text.len() ==> !in_class(
            class,
            text[run_end(text, from, class)],
        ),
    decreases text.len() - from,
{
    if from < text.len() && in_class(class, text[from]) {
        lemma_run_end(text, from + 1, class);
    }
}

/// A run ends at `end` if everything before `end` is of the class and what
/// stands at `end` is not.
pub proof fn lemma_run_end_is(text: Seq<char>, from: int, end: int, class: CharClass)
    requires
        0 <= from <= end <= text.len(),
        forall|i: int| from <= i < end ==> in_class(class, #[trigger] text[i]),
        end < text.len() ==> !in_class(class, text[end]),
    ensures
        run_end(text, from, class) == end,
    decreases end - from,
{
    if from < end {
        lemma_run_end_is(text, from + 1, end, class);
    }
}

/// Every step of the scanner takes at least one character and stays within
/// the text.
pub proof fn lemma_scan_advances(text: Seq<char>, pos: int)
    requires
        0 <= pos < text.len(),
    ensures
        pos < scan(text, pos).next <= text.len(),
{
    lemma_run_end(text, pos + 1, CharClass::Unquoted);
    lemma_run_end(text, pos + 1, CharClass::Number);
    lemma_run_end(text, pos + 1, CharClass::Identifier);
    lemma_run_end(text, pos + 1, CharClass::Space);
}

/// The items from a position are the item scanned there, followed by the
/// items from the position behind it.
pub proof fn lemma_tokens_from_step(text: Seq<char>, pos: int)
    requires
        0 <= pos < text.len(),
    ensures
        tokens_from(text, pos) == seq![scan(text, pos).item] + tokens_from(
            text,
            scan(text, pos).next,
        ),
        tokens_from(text, pos).len() > 0,
        tokens_from(text, pos)[0] == scan(text, pos).item,
        tokens_from(text, pos).drop_first() == tokens_from(text, scan(text, pos).next),
{
    lemma_scan_advances(text, pos);
    assert((seq![scan(text, pos).item] + tokens_from(text, scan(text, pos).next)).drop_first()
        == tokens_from(text, scan(text, pos).next));
}

} // verus!
