//! The text of tokens, and the proof that the scanner reads written tokens
//! back.

use super::number::{
    decimal, is_digit, is_float_literal, is_negative, law_decimal_is_read_back, unsigned_part,
};
use super::rules::{
    in_class, is_identifier_char, keyword, lemma_run_end, lemma_run_end_is, run_end, scan,
    scan_number,
    scan_string, scan_word, tokens_from, CharClass, ScanItem, Scanned,
};
use super::token::TokenView;
use super::TokenizerError;
use vstd::prelude::*;

verus! {

/// `count` spaces.
pub open spec fn spaces(count: nat) -> Seq<char> {
    Seq::new(count, |i: int| ' ')
}

/// The text of a string value: the characters between double quotes.
pub open spec fn quoted(text: Seq<char>) -> Seq<char> {
    seq!['"'] + text + seq!['"']
}

pub open spec fn bool_text(value: bool) -> Seq<char> {
    if value {
        seq!['t', 'r', 'u', 'e']
    } else {
        seq!['f', 'a', 'l', 's', 'e']
    }
}

pub open spec fn null_text() -> Seq<char> {
    seq!['n', 'u', 'l', 'l']
}

/// The text that a token is written as. A line end is a single line feed.
pub open spec fn token_text(token: TokenView) -> Seq<char> {
    match token {
        TokenView::Identifier(name) => name.push(':'),
        TokenView::Str(text) => quoted(text),
        TokenView::Int(value) => decimal(value as int),
        TokenView::Float(literal) => literal,
        TokenView::NewLine => seq!['\n'],
        TokenView::WhiteSpace(count) => spaces(count),
        TokenView::Boolean(value) => bool_text(value),
        TokenView::Null => null_text(),
        TokenView::ListStart => seq!['['],
        TokenView::ListEnd => seq![']'],
        TokenView::Separator => seq![','],
    }
}

/// The text of a sequence of items: the texts of its tokens, one behind the
/// other. A scan failure has no text.
pub open spec fn stream_text(stream: Seq<ScanItem>) -> Seq<char>
    decreases stream.len(),
{
    if stream.len() == 0 {
        Seq::empty()
    } else {
        (match stream[0] {
            Ok(token) => token_text(token),
            Err(_) => Seq::empty(),
        }) + stream_text(stream.drop_first())
    }
}

/// Whether a token holds what the scanner can yield: a key is a word that
/// does not start with a digit, a string holds no double quote, a
/// floating-point literal starts with a digit or `-`, a run of spaces is not
/// empty.
pub open spec fn token_sound(token: TokenView) -> bool {
    match token {
        TokenView::Identifier(name) => name.len() > 0 && !is_digit(name[0]) && forall|i: int|
            0 <= i < name.len() ==> is_identifier_char(#[trigger] name[i]),
        TokenView::Str(text) => forall|i: int| 0 <= i < text.len() ==> #[trigger] text[i] != '"',
        TokenView::Float(literal) => is_float_literal(literal) && (is_digit(literal[0])
            || literal[0] == '-'),
        TokenView::WhiteSpace(count) => count > 0,
        _ => true,
    }
}

/// Whether the text of a token can be followed by the character `next`, or
/// by the end of the text where `next` is `None`, and still be read as that
/// token: a number must not run on, a keyword must not become a longer word
/// or a key, a run of spaces must end.
pub open spec fn may_follow(token: TokenView, next: Option<char>) -> bool {
    match next {
        None => true,
        Some(c) => match token {
            TokenView::Int(_) | TokenView::Float(_) => !in_class(CharClass::Number, c),
            TokenView::Boolean(_) | TokenView::Null => !is_identifier_char(c) && c != ':',
            TokenView::WhiteSpace(_) => c != ' ',
            _ => true,
        },
    }
}

/// The first character of a text, if it has one.
pub open spec fn first_char(text: Seq<char>) -> Option<char> {
    if text.len() > 0 {
        Some(text[0])
    } else {
        None
    }
}

/// Whether a sequence of items can be written and read back: every item is
/// a sound token, and the text behind each token may follow it.
pub open spec fn writable(stream: Seq<ScanItem>) -> bool
    decreases stream.len(),
{
    stream.len() > 0 ==> stream[0] is Ok && token_sound(stream[0]->Ok_0) && may_follow(
        stream[0]->Ok_0,
        first_char(stream_text(stream.drop_first())),
    ) && writable(stream.drop_first())
}

/// The text of a sound token is not empty.
pub proof fn lemma_token_text_not_empty(token: TokenView)
    requires
        token_sound(token),
    ensures
        token_text(token).len() > 0,
{
    match token {
        TokenView::Int(value) => {
            law_decimal_is_read_back(value);
        },
        TokenView::Float(literal) => {
            assert(unsigned_part(literal).len() >= 2);
        },
        _ => {},
    }
}

/// A floating-point literal that starts with a digit or `-` goes on with
/// digits and dots, and holds a dot.
proof fn lemma_float_shape(literal: Seq<char>)
    requires
        is_float_literal(literal),
        is_digit(literal[0]) || literal[0] == '-',
    ensures
        literal.len() >= 2,
        literal.contains('.'),
        forall|i: int| 1 <= i < literal.len() ==> in_class(CharClass::Number, #[trigger] literal[i]),
{
    let body = unsigned_part(literal);
    let dot = choose|dot: int|
        0 <= dot < body.len() && #[trigger] body[dot] == '.' && forall|i: int|
            0 <= i < body.len() && i != dot ==> is_digit(#[trigger] body[i]);
    if is_negative(literal) {
        assert(literal[dot + 1] == body[dot]);
        assert forall|i: int| 1 <= i < literal.len() implies in_class(
            CharClass::Number,
            #[trigger] literal[i],
        ) by {
            assert(literal[i] == body[i - 1]);
        }
    } else {
        assert(literal[dot] == '.');
        assert forall|i: int| 1 <= i < literal.len() implies in_class(
            CharClass::Number,
            #[trigger] literal[i],
        ) by {
            assert(literal[i] == body[i]);
        }
    }
}

/// The scanner reads a written token back: where the text of a sound token
/// stands at `pos`, followed by what may follow it, the scanner yields that
/// token and stops behind its text.
pub proof fn lemma_scan_written(text: Seq<char>, pos: int, token: TokenView)
    requires
        token_sound(token),
        0 <= pos,
        pos + token_text(token).len() <= text.len(),
        text.subrange(pos, pos + token_text(token).len()) == token_text(token),
        may_follow(
            token,
            if pos + token_text(token).len() < text.len() {
                Some(text[pos + token_text(token).len()])
            } else {
                None
            },
        ),
    ensures
        scan(text, pos) == (Scanned {
            item: Ok(token),
            next: pos + token_text(token).len(),
        }),
{
    let written = token_text(token);
    let end = pos + written.len();
    lemma_token_text_not_empty(token);
    assert forall|i: int| 0 <= i < written.len() implies text[pos + i] == written[i] by {
        assert(text.subrange(pos, end)[i] == text[pos + i]);
    }
    assert(text[pos] == written[0]);
    match token {
        TokenView::Identifier(name) => {
            assert(written[0] == name[0]);
            assert forall|i: int| pos + 1 <= i < end - 1 implies in_class(
                CharClass::Identifier,
                #[trigger] text[i],
            ) by {
                assert(text[i] == written[i - pos]);
                assert(written[i - pos] == name[i - pos]);
            }
            assert(text[end - 1] == written[written.len() - 1]);
            lemma_run_end_is(text, pos + 1, end - 1, CharClass::Identifier);
            assert(text.subrange(pos, end - 1) =~= name) by {
                assert forall|i: int| 0 <= i < name.len() implies text.subrange(pos, end - 1)[i]
                    == name[i] by {
                    assert(written[i] == name[i]);
                }
            }
            assert(scan(text, pos) == scan_word(text, pos));
        },
        TokenView::Str(inner) => {
            assert(written[0] == '"');
            assert forall|i: int| pos + 1 <= i < end - 1 implies in_class(
                CharClass::Unquoted,
                #[trigger] text[i],
            ) by {
                assert(text[i] == written[i - pos]);
                assert(written[i - pos] == inner[i - pos - 1]);
            }
            assert(text[end - 1] == written[written.len() - 1]);
            lemma_run_end_is(text, pos + 1, end - 1, CharClass::Unquoted);
            assert(text.subrange(pos + 1, end - 1) =~= inner) by {
                assert forall|i: int| 0 <= i < inner.len() implies text.subrange(pos + 1, end - 1)[i]
                    == inner[i] by {
                    assert(written[i + 1] == inner[i]);
                }
            }
            assert(scan(text, pos) == scan_string(text, pos));
        },
        TokenView::Int(value) => {
            law_decimal_is_read_back(value);
            assert forall|i: int| pos + 1 <= i < end implies in_class(
                CharClass::Number,
                #[trigger] text[i],
            ) by {
                assert(text[i] == written[i - pos]);
            }
            lemma_run_end_is(text, pos + 1, end, CharClass::Number);
            assert(!written.contains('.')) by {
                if written.contains('.') {
                    let i = choose|i: int| 0 <= i < written.len() && written[i] == '.';
                    assert(i == 0 || is_digit(written[i]));
                }
            }
            assert(scan(text, pos) == scan_number(text, pos));
        },
        TokenView::Float(literal) => {
            lemma_float_shape(literal);
            assert forall|i: int| pos + 1 <= i < end implies in_class(
                CharClass::Number,
                #[trigger] text[i],
            ) by {
                assert(text[i] == written[i - pos]);
            }
            lemma_run_end_is(text, pos + 1, end, CharClass::Number);
            assert(scan(text, pos) == scan_number(text, pos));
        },
        TokenView::Boolean(value) => {
            assert forall|i: int| pos + 1 <= i < end implies in_class(
                CharClass::Identifier,
                #[trigger] text[i],
            ) by {
                assert(text[i] == written[i - pos]);
            }
            lemma_run_end_is(text, pos + 1, end, CharClass::Identifier);
            assert(keyword(written) == Some(token)) by {
                assert(bool_text(true).len() == 4);
                assert(bool_text(false).len() == 5);
                assert(bool_text(true)[0] == 't');
                assert(null_text()[0] == 'n');
            }
            assert(scan(text, pos) == scan_word(text, pos));
        },
        TokenView::Null => {
            assert forall|i: int| pos + 1 <= i < end implies in_class(
                CharClass::Identifier,
                #[trigger] text[i],
            ) by {
                assert(text[i] == written[i - pos]);
            }
            lemma_run_end_is(text, pos + 1, end, CharClass::Identifier);
            assert(keyword(written) == Some(token)) by {
                assert(bool_text(true)[0] == 't');
                assert(bool_text(false).len() == 5);
                assert(null_text().len() == 4);
            }
            assert(scan(text, pos) == scan_word(text, pos));
        },
        TokenView::WhiteSpace(count) => {
            assert forall|i: int| pos + 1 <= i < end implies in_class(
                CharClass::Space,
                #[trigger] text[i],
            ) by {
                assert(text[i] == written[i - pos]);
            }
            lemma_run_end_is(text, pos + 1, end, CharClass::Space);
        },
        _ => {},
    }
}

/// Every token that the scanner yields is sound.
pub proof fn law_scanned_token_is_sound(text: Seq<char>, pos: int)
    requires
        0 <= pos < text.len(),
    ensures
        scan(text, pos).item matches Ok(token) ==> token_sound(token),
{
    let c = text[pos];
    if c == '"' {
        let close = run_end(text, pos + 1, CharClass::Unquoted);
        lemma_run_end(text, pos + 1, CharClass::Unquoted);
        if close < text.len() {
            let inner = text.subrange(pos + 1, close);
            assert forall|i: int| 0 <= i < inner.len() implies #[trigger] inner[i] != '"' by {
                assert(in_class(CharClass::Unquoted, text[pos + 1 + i]));
            }
        }
    } else if is_digit(c) || c == '-' {
        let end = run_end(text, pos + 1, CharClass::Number);
        lemma_run_end(text, pos + 1, CharClass::Number);
        assert(text.subrange(pos, end)[0] == c);
    } else if is_identifier_char(c) {
        let end = run_end(text, pos + 1, CharClass::Identifier);
        lemma_run_end(text, pos + 1, CharClass::Identifier);
        let word = text.subrange(pos, end);
        assert(word[0] == c);
        assert forall|i: int| 0 <= i < word.len() implies is_identifier_char(#[trigger] word[i]) by {
            if i > 0 {
                assert(in_class(CharClass::Identifier, text[pos + i]));
            }
        }
    } else if c == ' ' {
        lemma_run_end(text, pos + 1, CharClass::Space);
    }
}

/// The text of an item followed by more items starts with the text of the
/// item.
pub proof fn lemma_stream_text_step(token: TokenView, rest: Seq<ScanItem>)
    ensures
        stream_text(seq![Ok(token)] + rest) == token_text(token) + stream_text(rest),
{
    let stream = seq![Ok::<TokenView, TokenizerError>(token)] + rest;
    assert(stream.drop_first() =~= rest);
}

/// Written tokens are read back.
///
/// Let the text from `pos` on be the text of a writable sequence of tokens.
/// Then the scanner yields exactly these tokens from `pos` on, and no
/// failure.
pub proof fn law_written_tokens_are_read_back(text: Seq<char>, pos: int, stream: Seq<ScanItem>)
    requires
        0 <= pos <= text.len(),
        writable(stream),
        text.subrange(pos, text.len() as int) == stream_text(stream),
    ensures
        tokens_from(text, pos) == stream,
    decreases stream.len(),
{
    let rest_text = text.subrange(pos, text.len() as int);
    if stream.len() == 0 {
        assert(rest_text.len() == 0);
        assert(tokens_from(text, pos) =~= stream);
    } else {
        let token = stream[0]->Ok_0;
        let rest = stream.drop_first();
        let written = token_text(token);
        let end = pos + written.len();
        lemma_token_text_not_empty(token);
        assert(rest_text == written + stream_text(rest));
        assert(rest_text.len() == written.len() + stream_text(rest).len());
        assert(text.subrange(pos, end) =~= written) by {
            assert forall|i: int| 0 <= i < written.len() implies text.subrange(pos, end)[i]
                == written[i] by {
                assert(rest_text[i] == text[pos + i]);
            }
        }
        assert(text.subrange(end, text.len() as int) =~= stream_text(rest)) by {
            assert forall|i: int| 0 <= i < stream_text(rest).len() implies text.subrange(
                end,
                text.len() as int,
            )[i] == stream_text(rest)[i] by {
                assert(rest_text[written.len() + i] == text[end + i]);
            }
        }
        if end < text.len() {
            assert(text[end] == rest_text[written.len() as int]);
            assert(stream_text(rest)[0] == rest_text[written.len() as int]);
        }
        lemma_scan_written(text, pos, token);
        law_written_tokens_are_read_back(text, end, rest);
        assert(tokens_from(text, pos) == seq![scan(text, pos).item] + tokens_from(text, end));
        assert(tokens_from(text, pos) =~= stream);
    }
}

} // verus!
