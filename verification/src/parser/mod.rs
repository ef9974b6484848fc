//! The parser: it builds the tree of values of a document from its tokens.

use vstd::prelude::*;

pub mod document;
pub mod grammar;
pub mod indentation;
pub mod reading;
pub mod steps;
pub mod units;
pub mod value;
pub mod writing;

use crate::tokenizer::rules::{tokens_from, ScanItem};
use crate::tokenizer::text::token_sound;
use crate::tokenizer::token::{Token, TokenView};
use crate::tokenizer::{Tokenizer, TokenizerError};
use crate::DecoderOptions;
use document::{lemma_tokens_sound_insert, node_tokens_sound, Entry};
use grammar::{
    entry_spec, entry_value_spec, indentation_spec, inline_value_spec, lemma_entry_unfolds,
    lemma_entry_value_shrinks, list_items_spec, parse_document, parse_list_spec,
    parse_object_spec, parse_value_spec, required, ParserErrorView,
};
use value::{lemma_list_view, value_views, HuonValue, ValueMap};

verus! {

/// Why a sequence of tokens is no document.
#[derive(Debug, PartialEq)]
pub enum ParserError<'a> {
    /// The tokens ended where one was required.
    Eof,
    /// A token that the grammar does not allow at its place.
    InvalidToken(Token<'a>),
    /// A token that is no scalar, where a scalar was required.
    InvalidHuonValue(Token<'a>),
    /// The scanner failed.
    TokenizerError(TokenizerError),
}

impl<'a> View for ParserError<'a> {
    type V = ParserErrorView;

    open spec fn view(&self) -> ParserErrorView {
        match *self {
            ParserError::Eof => ParserErrorView::Eof,
            ParserError::InvalidToken(token) => ParserErrorView::InvalidToken(token@),
            ParserError::InvalidHuonValue(token) => ParserErrorView::InvalidHuonValue(token@),
            ParserError::TokenizerError(e) => ParserErrorView::TokenizerError(e),
        }
    }
}

/// A parser over the tokens of one document.
pub struct Parser<'a> {
    tokenizer: Tokenizer<'a>,
    collapse: usize,
    options: DecoderOptions,
}

impl<'a> Parser<'a> {
    /// The items that are still to be read.
    pub closed spec fn remaining(&self) -> Seq<ScanItem> {
        self.tokenizer.remaining()
    }

    /// The number of objects that the last line end has still to close.
    pub closed spec fn pending(&self) -> nat {
        self.collapse as nat
    }

    /// The number of spaces of one nesting level.
    pub closed spec fn unit(&self) -> nat {
        self.options.indent as nat
    }

    /// A parser that reads the tokens of `tokenizer` from its cursor on.
    #[must_use]
    pub fn new(tokenizer: Tokenizer<'a>, options: DecoderOptions) -> (parser: Self)
        requires
            options.indent > 0,
        ensures
            parser.remaining() == tokenizer.remaining(),
            parser.pending() == 0,
            parser.unit() == options.indent,
    {
        Self { tokenizer, collapse: 0, options }
    }

    /// The next item, which stays where it is. `None` at the end of the tokens.
    fn peek(&self) -> (item: Option<Result<Token<'a>, ParserError<'a>>>)
        ensures
            self.remaining().len() == 0 ==> item is None,
            self.remaining().len() > 0 ==> item is Some && match self.remaining()[0] {
                Ok(token) => item->Some_0 is Ok && item->Some_0->Ok_0@ == token,
                Err(e) => item->Some_0 == Err::<Token<'a>, ParserError<'a>>(
                    ParserError::TokenizerError(e),
                ),
            },
            item matches Some(Ok(token)) ==> token_sound(token@),
    {
        match self.tokenizer.peek() {
            None => None,
            Some(Ok(token)) => Some(Ok(token)),
            Some(Err(e)) => Some(Err(ParserError::TokenizerError(e))),
        }
    }

    /// Takes the next item, where the grammar requires a token.
    fn advance(&mut self) -> (token: Result<Token<'a>, ParserError<'a>>)
        ensures
            match required(old(self).remaining()) {
                Ok(view) => token is Ok && token->Ok_0@ == view && final(self).remaining() == old(
                    self).remaining().drop_first(),
                Err(e) => token is Err && token->Err_0@ == e,
            },
            old(self).remaining().len() == 0 ==> final(self).remaining() == old(self).remaining(),
            old(self).remaining().len() > 0 ==> final(self).remaining() == old(
                self).remaining().drop_first(),
            token matches Ok(taken) ==> token_sound(taken@),
            final(self).pending() == old(self).pending(),
            final(self).unit() == old(self).unit(),
    {
        match self.tokenizer.next() {
            None => Err(ParserError::Eof),
            Some(Ok(token)) => Ok(token),
            Some(Err(e)) => Err(ParserError::TokenizerError(e)),
        }
    }

    /// Takes the indentation of an entry's line if it is that of
    /// `expected_indent`, and says whether it did. `token` is the next item.
    /// A deeper indentation is an error, a smaller one or another token is
    /// left where it is: in both cases nothing is taken.
    fn check_indentation(&mut self, token: Token<'a>, expected_indent: usize) -> (taken: Result<
        bool,
        ParserError<'a>,
    >)
        requires
            old(self).unit() > 0,
            old(self).remaining().len() > 0,
            old(self).remaining()[0] == Ok::<TokenView, TokenizerError>(token@),
        ensures
            match indentation_spec(old(self).remaining(), expected_indent as nat, old(self).unit()) {
                Ok(line) => taken is Ok && final(self).remaining() == line && (taken->Ok_0 <==> line
                    != old(self).remaining()),
                Err(e) => taken is Err && taken->Err_0@ == e && final(self).remaining() == old(
                    self).remaining(),
            },
            final(self).pending() == old(self).pending(),
            final(self).unit() == old(self).unit(),
    {
        if let Token::WhiteSpace(n) = token {
            let indent = n / (self.options.indent as usize);
            if indent < expected_indent {
                return Ok(false);
            } else if indent > expected_indent {
                return Err(ParserError::InvalidToken(token));
            } else {
                let _ = self.advance();
                return Ok(true);
            }
        }
        Ok(false)
    }

    /// Reads one scalar literal.
    fn parse_value(&mut self) -> (value: Result<HuonValue<'a>, ParserError<'a>>)
        ensures
            match parse_value_spec(old(self).remaining()) {
                Ok(read) => value is Ok && value->Ok_0@ == read.value && final(self).remaining()
                    == read.rest,
                Err(e) => value is Err && value->Err_0@ == e,
            },
            old(self).remaining().len() == 0 ==> final(self).remaining() == old(self).remaining(),
            old(self).remaining().len() > 0 ==> final(self).remaining() == old(
                self).remaining().drop_first(),
            value matches Ok(scalar) ==> node_tokens_sound(scalar.node()),
            final(self).pending() == old(self).pending(),
            final(self).unit() == old(self).unit(),
    {
        match self.advance() {
            Err(e) => Err(e),
            Ok(token) => match token {
                Token::Str(s) => Ok(HuonValue::String(s)),
                Token::Int(i) => Ok(HuonValue::Int(i)),
                Token::Boolean(b) => Ok(HuonValue::Boolean(b)),
                Token::Float(f) => Ok(HuonValue::Float(f)),
                Token::Null => Ok(HuonValue::Null),
                token => Err(ParserError::InvalidHuonValue(token)),
            },
        }
    }

    /// Reads a list, from its opening bracket on.
    fn parse_list(&mut self) -> (list: Result<Vec<HuonValue<'a>>, ParserError<'a>>)
        ensures
            match parse_list_spec(old(self).remaining()) {
                Ok(read) => list is Ok && value_views(list->Ok_0@) == read.value && final(
                    self).remaining() == read.rest,
                Err(e) => list is Err && list->Err_0@ == e,
            },
            final(self).pending() == old(self).pending(),
            final(self).unit() == old(self).unit(),
    {
        let mut list: Vec<HuonValue<'a>> = Vec::new();
        match self.advance() {
            Err(e) => {
                return Err(e);
            },
            Ok(_) => {},
        }
        assert(value_views(list@) =~= Seq::empty());
        loop
            invariant
                self.pending() == old(self).pending(),
                self.unit() == old(self).unit(),
                parse_list_spec(old(self).remaining()) == list_items_spec(
                    self.remaining(),
                    value_views(list@),
                ),
            decreases self.remaining().len(),
        {
            let ghost before = value_views(list@);
            match self.peek() {
                None => {
                    return Err(ParserError::Eof);
                },
                Some(Err(e)) => {
                    return Err(e);
                },
                Some(Ok(token)) => match token {
                    Token::ListEnd => {
                        let _ = self.advance();
                        return Ok(list);
                    },
                    Token::WhiteSpace(_) | Token::NewLine | Token::Separator => {
                        let _ = self.advance();
                    },
                    _ => {
                        match self.parse_value() {
                            Err(e) => {
                                return Err(e);
                            },
                            Ok(value) => {
                                list.push(value);
                                assert(value_views(list@) =~= before.push(value@));
                            },
                        }
                    },
                },
            }
        }
    }

    /// Reads what stands behind the single space that follows a key.
    fn parse_inline_value(&mut self) -> (value: Result<HuonValue<'a>, ParserError<'a>>)
        ensures
            match inline_value_spec(old(self).remaining()) {
                Ok(read) => value is Ok && value->Ok_0@ == read.value && final(self).remaining()
                    == read.rest,
                Err(e) => value is Err && value->Err_0@ == e,
            },
            value matches Ok(read) ==> node_tokens_sound(read.node()),
            final(self).pending() == old(self).pending(),
            final(self).unit() == old(self).unit(),
    {
        match self.peek() {
            None => Err(ParserError::Eof),
            Some(Err(e)) => Err(e),
            Some(Ok(Token::ListStart)) => match self.parse_list() {
                Err(e) => Err(e),
                Ok(list) => {
                    proof {
                        lemma_list_view(list);
                    }
                    Ok(HuonValue::List(list))
                },
            },
            Some(Ok(_)) => self.parse_value(),
        }
    }

    /// Reads the value of an entry, from the item behind its key on.
    fn parse_entry_value(&mut self, expected_indent: usize) -> (value: Result<
        HuonValue<'a>,
        ParserError<'a>,
    >)
        requires
            old(self).unit() > 0,
            old(self).pending() == 0,
        ensures
            match entry_value_spec(old(self).remaining(), expected_indent as nat, old(self).unit()) {
                Ok(read) => value is Ok && value->Ok_0@ == read.value && final(self).remaining()
                    == read.rest && final(self).pending() == read.pending,
                Err(e) => value is Err && value->Err_0@ == e,
            },
            value matches Ok(read) ==> node_tokens_sound(read.node()),
            final(self).unit() == old(self).unit(),
        decreases old(self).remaining().len(), 0int,
    {
        let token = match self.peek() {
            None => {
                return Err(ParserError::Eof);
            },
            Some(Err(e)) => {
                return Err(e);
            },
            Some(Ok(token)) => token,
        };
        match token {
            Token::WhiteSpace(n) => {
                if n != 1 {
                    return Err(ParserError::InvalidToken(token));
                }
                let _ = self.advance();
                self.parse_inline_value()
            },
            Token::NewLine => {
                let _ = self.advance();
                let next = match self.peek() {
                    None => {
                        return Err(ParserError::Eof);
                    },
                    Some(Err(e)) => {
                        return Err(e);
                    },
                    Some(Ok(next)) => next,
                };
                let level = match next {
                    Token::WhiteSpace(n) => n / (self.options.indent as usize),
                    _ => 0,
                };
                if level > expected_indent {
                    let _ = self.advance();
                    match self.parse_object(level) {
                        Err(e) => Err(e),
                        Ok(map) => Ok(HuonValue::Object(map)),
                    }
                } else {
                    Err(ParserError::InvalidToken(next))
                }
            },
            _ => Err(ParserError::InvalidToken(token)),
        }
    }

    /// Reads an object of nesting level `expected_indent` to its end.
    #[verifier::loop_isolation(false)]
    fn parse_object(&mut self, expected_indent: usize) -> (object: Result<
        ValueMap<'a>,
        ParserError<'a>,
    >)
        requires
            old(self).unit() > 0,
        ensures
            match parse_object_spec(
                old(self).remaining(),
                old(self).pending(),
                expected_indent as nat,
                old(self).unit(),
                Map::empty(),
            ) {
                Ok(block) => object is Ok && object->Ok_0@ == block.entries && final(
                    self).remaining() == block.rest && final(self).pending() == block.pending,
                Err(e) => object is Err && object->Err_0@ == e,
            },
            object matches Ok(read) ==> node_tokens_sound(read.node()),
            final(self).unit() == old(self).unit(),
        decreases old(self).remaining().len(), 2int,
    {
        let mut map = ValueMap::new();
        loop
            invariant
                self.unit() == old(self).unit(),
                self.remaining().len() <= old(self).remaining().len(),
                node_tokens_sound(map.node()),
                parse_object_spec(
                    old(self).remaining(),
                    old(self).pending(),
                    expected_indent as nat,
                    old(self).unit(),
                    Map::empty(),
                ) == parse_object_spec(
                    self.remaining(),
                    self.pending(),
                    expected_indent as nat,
                    self.unit(),
                    map@,
                ),
            decreases self.remaining().len(),
        {
            let token = match self.peek() {
                None => {
                    return Ok(map);
                },
                Some(Err(e)) => {
                    return Err(e);
                },
                Some(Ok(token)) => token,
            };
            if self.collapse > 0 {
                self.collapse -= 1;
                return Ok(map);
            }
            if let Token::NewLine = token {
                let _ = self.advance();
                match self.peek() {
                    None => {
                        return Ok(map);
                    },
                    Some(Err(e)) => {
                        return Err(e);
                    },
                    Some(Ok(next)) => match next {
                        Token::WhiteSpace(n) => {
                            let level = n / (self.options.indent as usize);
                            if level < expected_indent {
                                self.collapse = expected_indent - level - 1;
                                return Ok(map);
                            }
                        },
                        Token::Identifier(_) => {
                            if expected_indent == 1 {
                                return Ok(map);
                            }
                        },
                        _ => {},
                    },
                }
                continue ;
            }
            let ghost stream = self.remaining();
            assert(parse_object_spec(stream, 0, expected_indent as nat, self.unit(), map@)
                == entry_spec(stream, expected_indent as nat, self.unit(), map@));
            match self.check_indentation(token, expected_indent) {
                Err(e) => {
                    return Err(e);
                },
                Ok(_) => {},
            }
            let key = match self.advance() {
                Err(e) => {
                    return Err(e);
                },
                Ok(Token::Identifier(key)) => key,
                Ok(other) => {
                    return Err(ParserError::InvalidToken(other));
                },
            };
            let value = match self.parse_entry_value(expected_indent) {
                Err(e) => {
                    return Err(e);
                },
                Ok(value) => value,
            };
            let ghost document = map.document();
            proof {
                lemma_entry_unfolds(stream, expected_indent as nat, self.unit(), map@);
                lemma_entry_value_shrinks(
                    indentation_spec(stream, expected_indent as nat, self.unit())->Ok_0.drop_first(),
                    expected_indent as nat,
                    self.unit(),
                );
                map.lemma_document_keys();
            }
            map.insert(key, value);
            proof {
                lemma_tokens_sound_insert(
                    document,
                    map.document(),
                    Entry { key: key@, node: value.node(), blank_lines: 0 },
                );
            }
        }
    }

    /// Reads the document that the tokens of `tokenizer` hold.
    pub fn parse(tokenizer: Tokenizer<'a>, options: DecoderOptions) -> (object: Result<
        ValueMap<'a>,
        ParserError<'a>,
    >)
        requires
            options.indent > 0,
        ensures
            match parse_document(tokenizer.remaining(), options.indent as nat) {
                Ok(entries) => object is Ok && object->Ok_0@ == entries,
                Err(e) => object is Err && object->Err_0@ == e,
            },
            object matches Ok(read) ==> node_tokens_sound(read.node()),
    {
        let mut parser = Self::new(tokenizer, options);
        parser.parse_object(0)
    }
}

/// Reads the document that `input` holds.
pub fn parse<'a>(input: &'a str, options: DecoderOptions) -> (object: Result<
    ValueMap<'a>,
    ParserError<'a>,
>)
    requires
        options.indent > 0,
    ensures
        match parse_document(tokens_from(input@, 0), options.indent as nat) {
            Ok(entries) => object is Ok && object->Ok_0@ == entries,
            Err(e) => object is Err && object->Err_0@ == e,
        },
        object matches Ok(read) ==> node_tokens_sound(read.node()),
{
    let tokenizer = Tokenizer::new(input);
    Parser::parse(tokenizer, options)
}

} // verus!
