//! The decoder: it hands the values of a parsed document to the record that
//! is built from them, one shape at a time.

use crate::parser::document::node_tokens_sound;
use crate::parser::grammar::parse_document;
use crate::parser::value::{entry_views, value_views, HuonValue, ValueMap, ValueView};
use crate::parser::{Parser, ParserError};
use crate::tokenizer::rules::{first_failure, tokens_from};
use crate::tokenizer::{Tokenizer, TokenizerError};
use crate::DecoderOptions;
use std::collections::VecDeque;
use vstd::prelude::*;
use vstd::string::*;

verus! {

/// `serde::de::value::Error`, the failure of decoding: a value that is
/// carried and never looked into.
#[verifier::external_type_specification]
#[verifier::external_body]
pub struct ExValueError(serde::de::value::Error);

/// The error that `serde::de::Error::custom` makes of a message.
pub uninterp spec fn custom_error(message: Seq<char>) -> serde::de::value::Error;

/// Makes the error of a mismatch: `custom` of `serde::de::Error`, as
/// `serde::de::value::Error` implements it. The error holds the message and
/// nothing else, so equal messages give equal errors.
#[verifier::external_body]
fn custom(message: &str) -> (error: serde::de::value::Error)
    ensures
        error == custom_error(message@),
{
    serde::de::Error::custom(message)
}

/// Why a text could not be decoded.
#[derive(Debug)]
pub enum HuonDeserializeError<'de> {
    /// The record does not have the shape of the document.
    SerdeError(serde::de::value::Error),
    /// The tokens are no document.
    ParserError(ParserError<'de>),
    /// The text is no sequence of tokens.
    TokenizerError(TokenizerError),
}

/// A value that is about to be decoded.
#[derive(Debug)]
pub struct HuonDeserializer<'de> {
    value: HuonValue<'de>,
}

/// The entries of an object that is being decoded: keys and values are asked
/// for in turn.
#[derive(Debug)]
pub struct MapDeserializer<'de> {
    iter: VecDeque<(&'de str, HuonValue<'de>)>,
    next_value: Option<HuonValue<'de>>,
}

/// The items of a list that is being decoded.
#[derive(Debug)]
pub struct SequenceDeserializer<'de> {
    sequence: VecDeque<HuonValue<'de>>,
}

/// What a value shows itself as when nothing is asked of its shape.
#[derive(Debug)]
pub enum Visit<'de> {
    Bool(bool),
    I64(i64),
    BorrowedStr(&'de str),
    /// A floating-point number, as the text of its literal.
    F64(&'de str),
    /// The null value, which stands for an absent one.
    Absent,
    Object(MapDeserializer<'de>),
    List(SequenceDeserializer<'de>),
}

impl<'de> View for HuonDeserializer<'de> {
    type V = ValueView;

    closed spec fn view(&self) -> ValueView {
        self.value@
    }
}

impl<'de> MapDeserializer<'de> {
    /// The entries whose keys are still to be asked for, in their order.
    pub closed spec fn remaining(&self) -> Seq<(Seq<char>, ValueView)> {
        entry_views(self.iter@)
    }

    /// The value of the key that was asked for last, until it is asked for
    /// itself.
    pub closed spec fn awaited(&self) -> Option<ValueView> {
        match self.next_value {
            Some(value) => Some(value@),
            None => None,
        }
    }

    /// Starts at the first entry of `map`.
    pub fn new(map: ValueMap<'de>) -> (access: Self)
        ensures
            access.remaining() == map.entries(),
            access.awaited() is None,
    {
        let mut entries = map.into_entries();
        let ghost all = entries@;
        let mut iter: VecDeque<(&'de str, HuonValue<'de>)> = VecDeque::new();
        while entries.len() > 0
            invariant
                entries@ + iter@ == all,
            decreases entries.len(),
        {
            let ghost before = entries@;
            let ghost queued = iter@;
            let entry = entries.pop().unwrap();
            iter.push_front(entry);
            assert(entries@ + iter@ =~= before + queued);
        }
        assert(iter@ =~= all);
        Self { iter, next_value: None }
    }

    /// The next key. Its value is kept for the call of `next_value` that
    /// follows.
    pub fn next_key(&mut self) -> (key: Option<&'de str>)
        ensures
            old(self).remaining().len() == 0 ==> key is None && final(self).remaining() == old(
                self).remaining() && final(self).awaited() == old(self).awaited(),
            old(self).remaining().len() > 0 ==> key is Some && key->Some_0@ == old(
                self).remaining()[0].0 && final(self).remaining() == old(
                self).remaining().drop_first() && final(self).awaited() == Some(
                old(self).remaining()[0].1,
            ),
    {
        let ghost before = self.iter@;
        match self.iter.pop_front() {
            Some((key, value)) => {
                self.next_value = Some(value);
                assert(entry_views(self.iter@) =~= entry_views(before).drop_first());
                Some(key)
            },
            None => None,
        }
    }

    /// The value of the key that was asked for last. To ask for a value
    /// before its key is an error.
    pub fn next_value(&mut self) -> (value: Result<HuonDeserializer<'de>, serde::de::value::Error>)
        ensures
            final(self).remaining() == old(self).remaining(),
            final(self).awaited() is None,
            match old(self).awaited() {
                Some(awaited) => value is Ok && value->Ok_0@ == awaited,
                None => value == Err::<HuonDeserializer<'de>, serde::de::value::Error>(
                    custom_error("Called next_value_seed before next_key_seed"@),
                ),
            },
    {
        match self.next_value.take() {
            Some(value) => Ok(HuonDeserializer { value }),
            None => Err(custom("Called next_value_seed before next_key_seed")),
        }
    }
}

impl<'de> SequenceDeserializer<'de> {
    /// The items that are still to be handed out, in their order.
    pub closed spec fn remaining(&self) -> Seq<ValueView> {
        value_views(self.sequence@)
    }

    /// Starts at the first item of `list`.
    pub fn new(list: Vec<HuonValue<'de>>) -> (access: Self)
        ensures
            access.remaining() == value_views(list@),
    {
        let mut items = list;
        let ghost all = items@;
        let mut sequence: VecDeque<HuonValue<'de>> = VecDeque::new();
        while items.len() > 0
            invariant
                items@ + sequence@ == all,
            decreases items.len(),
        {
            let ghost before = items@;
            let ghost queued = sequence@;
            let item = items.pop().unwrap();
            sequence.push_front(item);
            assert(items@ + sequence@ =~= before + queued);
        }
        assert(sequence@ =~= all);
        Self { sequence }
    }

    /// The next item, in the order of the document. `None` behind the last.
    pub fn next_element(&mut self) -> (item: Option<HuonDeserializer<'de>>)
        ensures
            old(self).remaining().len() == 0 ==> item is None && final(self).remaining() == old(
                self).remaining(),
            old(self).remaining().len() > 0 ==> item is Some && item->Some_0@ == old(
                self).remaining()[0] && final(self).remaining() == old(
                self).remaining().drop_first(),
    {
        let ghost before = self.sequence@;
        match self.sequence.pop_front() {
            Some(value) => {
                assert(value_views(self.sequence@) =~= value_views(before).drop_first());
                Some(HuonDeserializer { value })
            },
            None => None,
        }
    }
}

impl<'de> Visit<'de> {
    /// Whether this is what `value` shows itself as: a scalar as itself, an
    /// object as its entries in the order in which they are kept, a list as
    /// its items in the order of the document.
    pub open spec fn shows(self, value: HuonValue<'de>) -> bool {
        match value {
            HuonValue::Boolean(b) => self == Visit::Bool(b),
            HuonValue::Int(i) => self == Visit::I64(i),
            HuonValue::String(s) => self == Visit::BorrowedStr(s),
            HuonValue::Float(f) => self == Visit::F64(f),
            HuonValue::Null => self is Absent,
            HuonValue::Object(map) => self matches Visit::Object(access) && access.remaining()
                == map.entries() && access.awaited() is None,
            HuonValue::List(items) => self matches Visit::List(access) && access.remaining()
                == value_views(items@),
        }
    }
}

impl<'de> HuonDeserializer<'de> {
    /// The value that is about to be decoded.
    pub closed spec fn held(&self) -> HuonValue<'de> {
        self.value
    }

    /// A decoder of `value`.
    pub fn new(value: HuonValue<'de>) -> (decoder: Self)
        ensures
            decoder.held() == value,
            decoder@ == value@,
    {
        HuonDeserializer { value }
    }

    /// Hands the value out as it is.
    pub fn into_value(self) -> (value: HuonValue<'de>)
        ensures
            value == self.held(),
            value@ == self@,
    {
        self.value
    }

    /// Decodes the value as what it is.
    pub fn deserialize_any(self) -> (visit: Visit<'de>)
        ensures
            visit.shows(self.held()),
    {
        match self.value {
            HuonValue::Boolean(b) => Visit::Bool(b),
            HuonValue::Int(i) => Visit::I64(i),
            HuonValue::String(s) => Visit::BorrowedStr(s),
            HuonValue::Float(f) => Visit::F64(f),
            HuonValue::Null => Visit::Absent,
            HuonValue::Object(map) => Visit::Object(MapDeserializer::new(map)),
            HuonValue::List(list) => Visit::List(SequenceDeserializer::new(list)),
        }
    }

    /// Decodes a boolean. Any other value is a mismatch.
    pub fn deserialize_bool(self) -> (decoded: Result<bool, serde::de::value::Error>)
        ensures
            match self@ {
                ValueView::Boolean(b) => decoded == Ok::<bool, serde::de::value::Error>(b),
                _ => decoded == Err::<bool, serde::de::value::Error>(
                    custom_error("Expected bool"@),
                ),
            },
    {
        match self.value {
            HuonValue::Boolean(b) => Ok(b),
            _ => Err(custom("Expected bool")),
        }
    }

    /// Decodes a 64-bit signed integer. Any other value is a mismatch.
    pub fn deserialize_i64(self) -> (decoded: Result<i64, serde::de::value::Error>)
        ensures
            match self@ {
                ValueView::Int(i) => decoded == Ok::<i64, serde::de::value::Error>(i),
                _ => decoded == Err::<i64, serde::de::value::Error>(custom_error("Expected i64"@)),
            },
    {
        match self.value {
            HuonValue::Int(i) => Ok(i),
            _ => Err(custom("Expected i64")),
        }
    }

    /// Decodes a string into a text of its own. Any other value is a
    /// mismatch.
    pub fn deserialize_string(self) -> (decoded: Result<String, serde::de::value::Error>)
        ensures
            match self@ {
                ValueView::String(s) => decoded is Ok && decoded->Ok_0@ == s,
                _ => decoded == Err::<String, serde::de::value::Error>(
                    custom_error("Expected string"@),
                ),
            },
    {
        match self.value {
            HuonValue::String(s) => Ok(s.to_owned()),
            _ => Err(custom("Expected string")),
        }
    }

    /// Decodes a string as the part of the input that holds it. Any other
    /// value is a mismatch.
    pub fn deserialize_str(self) -> (decoded: Result<&'de str, serde::de::value::Error>)
        ensures
            match self@ {
                ValueView::String(s) => decoded is Ok && decoded->Ok_0@ == s,
                _ => decoded == Err::<&'de str, serde::de::value::Error>(
                    custom_error("Expected str"@),
                ),
            },
    {
        match self.value {
            HuonValue::String(s) => Ok(s),
            _ => Err(custom("Expected str")),
        }
    }

    /// Decodes an object as its entries. Any other value is a mismatch.
    pub fn deserialize_map(self) -> (decoded: Result<
        MapDeserializer<'de>,
        serde::de::value::Error,
    >)
        ensures
            match self.held() {
                HuonValue::Object(map) => decoded is Ok && decoded->Ok_0.remaining()
                    == map.entries() && decoded->Ok_0.awaited() is None,
                _ => decoded == Err::<MapDeserializer<'de>, serde::de::value::Error>(
                    custom_error("Expected map"@),
                ),
            },
    {
        match self.value {
            HuonValue::Object(map) => Ok(MapDeserializer::new(map)),
            _ => Err(custom("Expected map")),
        }
    }

    /// Decodes a record, which is read from an object.
    pub fn deserialize_struct(self, _name: &'static str, _fields: &'static [&'static str]) -> (decoded:
        Result<MapDeserializer<'de>, serde::de::value::Error>)
        ensures
            match self.held() {
                HuonValue::Object(map) => decoded is Ok && decoded->Ok_0.remaining()
                    == map.entries() && decoded->Ok_0.awaited() is None,
                _ => decoded == Err::<MapDeserializer<'de>, serde::de::value::Error>(
                    custom_error("Expected map"@),
                ),
            },
    {
        self.deserialize_map()
    }

    /// Decodes a record of one unnamed field: the field is read from the
    /// value itself.
    pub fn deserialize_newtype_struct(self, _name: &'static str) -> (inner: Self)
        ensures
            inner == self,
    {
        self
    }

    /// Decodes an optional value: the null value stands for an absent one,
    /// any other value is present and still to be decoded.
    pub fn deserialize_option(self) -> (present: Option<Self>)
        ensures
            match self@ {
                ValueView::Null => present is None,
                _ => present == Some(self),
            },
    {
        match self.value {
            HuonValue::Null => None,
            value => Some(HuonDeserializer { value }),
        }
    }
}

/// Reads the document that `s` holds, up to the value that a record is then
/// decoded from. A scan failure anywhere in the text comes first, then a
/// failure of the parser.
pub fn from_str<'de>(s: &'de str, options: DecoderOptions) -> (decoder: Result<
    HuonDeserializer<'de>,
    HuonDeserializeError<'de>,
>)
    requires
        options.indent > 0,
    ensures
        match first_failure(tokens_from(s@, 0)) {
            Some(e) => decoder matches Err(HuonDeserializeError::TokenizerError(f)) && f == e,
            None => match parse_document(tokens_from(s@, 0), options.indent as nat) {
                Err(e) => decoder matches Err(HuonDeserializeError::ParserError(f)) && f@ == e,
                Ok(entries) => decoder matches Ok(root) && root@ == ValueView::Object(entries),
            },
        },
        decoder matches Ok(root) ==> node_tokens_sound(root.held().node()),
{
    let tokens = match Tokenizer::tokenize(s) {
        Err(e) => {
            return Err(HuonDeserializeError::TokenizerError(e));
        },
        Ok(tokens) => tokens,
    };
    match Parser::parse(tokens, options) {
        Err(e) => Err(HuonDeserializeError::ParserError(e)),
        Ok(parsed) => Ok(HuonDeserializer { value: HuonValue::Object(parsed) }),
    }
}

} // verus!
