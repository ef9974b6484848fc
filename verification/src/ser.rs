//! The encoder: it writes the text of a document, piece by piece, as a
//! record hands over its keys and values.

use crate::parser::document::{
    entries_have_list, lemma_entries_list, lemma_entry_depth, node_depth, node_has_list, Entry,
    Node,
};
use crate::parser::value::{HuonValue, ValueMap};
use crate::tokenizer::number::{decimal, decimal_digits, digit_char};
use crate::tokenizer::text::{bool_text, null_text, quoted, spaces, token_text};
use crate::tokenizer::token::TokenView;
use vstd::prelude::*;
use vstd::string::*;

verus! {

/// `std::io::Error`, the failure of a sink: a value that is carried and
/// never looked into.
#[verifier::external_type_specification]
#[verifier::external_body]
pub struct ExIoError(std::io::Error);

/// Why a record could not be written.
#[derive(Debug)]
pub enum HuonSerializeError {
    /// The sink that takes the text failed.
    Io(std::io::Error),
    /// The record holds what the format cannot express.
    Custom(String),
}

/// What an encoder has written and where in the record it stands.
pub struct SerializerState {
    /// The text written so far.
    pub text: Seq<char>,
    /// The number of nested objects that are open, the outermost not counted.
    pub indent_level: nat,
    /// Whether what is written now is a key.
    pub is_key: bool,
    /// Whether no object was opened yet.
    pub is_root: bool,
    /// Whether a key was written and its separator is still to come.
    pub key_pending: bool,
}

/// The number of spaces that the encoder writes for one nesting level.
pub const INDENT_WIDTH: usize = 4;

impl SerializerState {
    /// The state before anything is written.
    pub open spec fn initial() -> SerializerState {
        SerializerState {
            text: Seq::empty(),
            indent_level: 0,
            is_key: false,
            is_root: true,
            key_pending: false,
        }
    }

    /// The state with `piece` written behind the text.
    pub open spec fn append(self, piece: Seq<char>) -> SerializerState {
        SerializerState { text: self.text + piece, ..self }
    }

    /// What stands between a pending key and a value on its line.
    pub open spec fn value_separator(self) -> Seq<char> {
        if self.key_pending {
            seq![':', ' ']
        } else {
            Seq::empty()
        }
    }

    /// What stands between a pending key and a nested object.
    pub open spec fn map_separator(self) -> Seq<char> {
        if self.key_pending {
            seq![':']
        } else {
            Seq::empty()
        }
    }

    /// The state once a scalar with the text `piece` is written: the
    /// separator of a pending key comes first.
    pub open spec fn scalar(self, piece: Seq<char>) -> SerializerState {
        SerializerState {
            text: self.text + self.value_separator() + piece,
            key_pending: false,
            ..self
        }
    }

    /// The state once a string is written: a key as it is, a value between
    /// double quotes.
    pub open spec fn string(self, text: Seq<char>) -> SerializerState {
        if self.is_key {
            self.scalar(text)
        } else {
            self.scalar(quoted(text))
        }
    }

    /// The state once an object is opened: the outermost one writes nothing,
    /// a nested one ends the line of its key and is one level deeper.
    pub open spec fn open_map(self) -> SerializerState {
        if self.is_root {
            SerializerState {
                text: self.text + self.map_separator(),
                key_pending: false,
                is_root: false,
                ..self
            }
        } else {
            SerializerState {
                text: self.text + self.map_separator() + seq!['\n'],
                key_pending: false,
                indent_level: self.indent_level + 1,
                ..self
            }
        }
    }

    /// The state at the start of a key: every key but the first of its
    /// object starts a new line, and every key is indented by the level.
    pub open spec fn begin_key(self, first: bool) -> SerializerState {
        SerializerState {
            text: self.text + (if first {
                Seq::empty()
            } else {
                seq!['\n']
            }) + spaces(INDENT_WIDTH as nat * self.indent_level),
            is_key: true,
            ..self
        }
    }

    /// The state behind a key: its separator is still to come.
    pub open spec fn end_key(self) -> SerializerState {
        SerializerState { is_key: false, key_pending: true, ..self }
    }

    /// The state once a key that is a plain name is written.
    pub open spec fn key(self, first: bool, name: Seq<char>) -> SerializerState {
        self.begin_key(first).string(name).end_key()
    }

    /// The state once an object is closed.
    pub open spec fn close_map(self) -> SerializerState {
        SerializerState {
            indent_level: if self.indent_level > 0 {
                (self.indent_level - 1) as nat
            } else {
                0
            },
            ..self
        }
    }
}

/// An encoder: the text written so far and the place in the record.
#[derive(Debug)]
pub struct HuonSerializer {
    out: String,
    indent_level: usize,
    is_key: bool,
    is_root: bool,
    key_pending: bool,
}

impl View for HuonSerializer {
    type V = SerializerState;

    closed spec fn view(&self) -> SerializerState {
        SerializerState {
            text: self.out@,
            indent_level: self.indent_level as nat,
            is_key: self.is_key,
            is_root: self.is_root,
            key_pending: self.key_pending,
        }
    }
}

/// What is still to be known of an object that is being written.
#[derive(Debug)]
pub struct HuonMapSerializer {
    first: bool,
}

/// The text "Unsigned integers are not supported in Huon" and its kin: the
/// failure that stands for a shape of data that the format lacks.
pub open spec fn unsupported<T>(result: Result<T, HuonSerializeError>, message: Seq<char>) -> bool {
    result matches Err(HuonSerializeError::Custom(text)) && text@ == message
}

/// The state once a node is written as a value, as far as it can be
/// written: a list cannot, and the writing stops in front of the first one.
pub open spec fn written_node(state: SerializerState, node: Node) -> SerializerState
    decreases node, 0int,
{
    match node {
        Node::Scalar(TokenView::Str(text)) => state.string(text),
        Node::Scalar(token) => state.scalar(token_text(token)),
        Node::List(_) => state,
        Node::Object { step, entries } => if entries_have_list(entries, 0) {
            written_entries(state.open_map(), entries, 0)
        } else {
            written_entries(state.open_map(), entries, 0).close_map()
        },
    }
}

/// The state once the entries from place `from` on are written, each as its
/// key and its value, up to the first list: the key of the entry that is or
/// holds the list is written, and what stands in front of the list in it.
pub open spec fn written_entries(
    state: SerializerState,
    entries: Seq<Entry>,
    from: int,
) -> SerializerState
    decreases entries, entries.len() - from,
{
    if 0 <= from < entries.len() {
        if node_has_list(entries[from].node) {
            written_node(state.key(from == 0, entries[from].key), entries[from].node)
        } else {
            written_entries(
                written_node(state.key(from == 0, entries[from].key), entries[from].node),
                entries,
                from + 1,
            )
        }
    } else {
        state
    }
}

/// The text that an encoder writes of a document.
pub open spec fn written_document(document: Seq<Entry>) -> Seq<char> {
    written_node(SerializerState::initial(), Node::Object { step: 1, entries: document }).text
}

fn refuse(message: &str) -> (result: Result<(), HuonSerializeError>)
    ensures
        unsupported(result, message@),
{
    Err(HuonSerializeError::Custom(message.to_owned()))
}

/// The text of one decimal digit.
fn digit_text(digit: u8) -> (text: &'static str)
    requires
        digit < 10,
    ensures
        text@ == seq![digit_char(digit as int)],
{
    proof {
        reveal_strlit("0");
        reveal_strlit("1");
        reveal_strlit("2");
        reveal_strlit("3");
        reveal_strlit("4");
        reveal_strlit("5");
        reveal_strlit("6");
        reveal_strlit("7");
        reveal_strlit("8");
        reveal_strlit("9");
    }
    let text = if digit == 0 {
        "0"
    } else if digit == 1 {
        "1"
    } else if digit == 2 {
        "2"
    } else if digit == 3 {
        "3"
    } else if digit == 4 {
        "4"
    } else if digit == 5 {
        "5"
    } else if digit == 6 {
        "6"
    } else if digit == 7 {
        "7"
    } else if digit == 8 {
        "8"
    } else {
        "9"
    };
    assert(text@ =~= seq![digit_char(digit as int)]);
    text
}

/// Writes the decimal digits of `n` behind `out`.
fn append_digits(out: &mut String, n: u64)
    ensures
        final(out)@ == old(out)@ + decimal_digits(n as nat),
{
    let mut low: Vec<u8> = Vec::new();
    let mut m = n;
    let ghost mut tail: Seq<char> = Seq::empty();
    while m >= 10
        invariant
            decimal_digits(n as nat) == decimal_digits(m as nat) + tail,
            tail.len() == low.len(),
            forall|i: int|
                0 <= i < low.len() ==> low@[i] < 10 && tail[tail.len() - 1 - i] == digit_char(
                    low@[i] as int,
                ),
        decreases m,
    {
        let d = (m % 10) as u8;
        proof {
            let shorter = decimal_digits((m / 10) as nat);
            assert(decimal_digits(m as nat) == shorter.push(digit_char(d as int)));
            assert(shorter.push(digit_char(d as int)) + tail =~= shorter + (seq![
                digit_char(d as int),
            ] + tail));
            tail = seq![digit_char(d as int)] + tail;
        }
        low.push(d);
        m = m / 10;
    }
    let ghost before = out@;
    out.append(digit_text(m as u8));
    let mut i = low.len();
    while i > 0
        invariant
            i <= low.len(),
            tail.len() == low.len(),
            forall|j: int|
                0 <= j < low.len() ==> low@[j] < 10 && tail[tail.len() - 1 - j] == digit_char(
                    low@[j] as int,
                ),
            out@ == before + seq![digit_char(m as int)] + tail.take(low.len() - i),
        decreases i,
    {
        i -= 1;
        let ghost written = out@;
        out.append(digit_text(low[i]));
        proof {
            let k = low.len() - 1 - i;
            assert(tail.take(k + 1) =~= tail.take(k) + seq![tail[k]]);
            assert(out@ =~= before + seq![digit_char(m as int)] + tail.take(k + 1));
        }
    }
    proof {
        assert(tail.take(low.len() as int) =~= tail);
        assert(decimal_digits(m as nat) == seq![digit_char(m as int)]);
        assert(out@ =~= before + decimal_digits(n as nat));
    }
}

/// Writes the decimal text of `value` behind `out`.
fn append_decimal(out: &mut String, value: i64)
    ensures
        final(out)@ == old(out)@ + decimal(value as int),
{
    let ghost before = out@;
    if value < 0 {
        proof {
            reveal_strlit("-");
        }
        out.append("-");
        let magnitude: u64 = if value == i64::MIN {
            9223372036854775808
        } else {
            (-value) as u64
        };
        append_digits(out, magnitude);
        assert(out@ =~= before + decimal(value as int));
    } else {
        append_digits(out, value as u64);
    }
}

impl HuonSerializer {
    /// An encoder that has written nothing.
    pub fn new() -> (serializer: Self)
        ensures
            serializer@ == SerializerState::initial(),
    {
        HuonSerializer {
            out: String::new(),
            indent_level: 0,
            is_key: false,
            is_root: true,
            key_pending: false,
        }
    }

    /// The text written so far.
    pub fn as_str(&self) -> (text: &str)
        ensures
            text@ == self@.text,
    {
        self.out.as_str()
    }

    /// Ends the writing and hands out the text.
    pub fn into_string(self) -> (text: String)
        ensures
            text@ == self@.text,
    {
        self.out
    }

    /// The number of nested objects that are open.
    pub fn indent_level(&self) -> (level: usize)
        ensures
            level == self@.indent_level,
    {
        self.indent_level
    }

    /// Writes the indentation of the current level.
    fn write_indent(&mut self)
        ensures
            final(self)@ == old(self)@.append(spaces(INDENT_WIDTH as nat * old(self)@.indent_level)),
    {
        proof {
            reveal_strlit("    ");
        }
        let ghost before = self.out@;
        let mut i: usize = 0;
        while i < self.indent_level
            invariant
                i <= self.indent_level,
                self.indent_level == old(self).indent_level,
                self.is_key == old(self).is_key,
                self.is_root == old(self).is_root,
                self.key_pending == old(self).key_pending,
                self.out@ == before + spaces(INDENT_WIDTH as nat * i as nat),
                "    "@.len() == 4,
                forall|k: int| 0 <= k < 4 ==> "    "@[k] == ' ',
            decreases self.indent_level - i,
        {
            self.out.append("    ");
            i += 1;
            assert(self.out@ =~= before + spaces(INDENT_WIDTH as nat * i as nat));
        }
    }

    /// Writes what stands between a pending key and a value on its line.
    fn write_non_map_value_separator(&mut self)
        ensures
            final(self)@ == old(self)@.scalar(Seq::empty()),
    {
        let ghost before = self.out@;
        if self.key_pending {
            proof {
                reveal_strlit(": ");
            }
            self.out.append(": ");
            self.key_pending = false;
            assert(self.out@ =~= before + seq![':', ' '] + Seq::<char>::empty());
        } else {
            assert(self.out@ =~= before + Seq::<char>::empty() + Seq::<char>::empty());
        }
    }

    /// Writes what stands between a pending key and a nested object.
    fn write_map_value_separator(&mut self)
        ensures
            final(self)@ == (SerializerState {
                text: old(self)@.text + old(self)@.map_separator(),
                key_pending: false,
                ..old(self)@
            }),
    {
        let ghost before = self.out@;
        if self.key_pending {
            proof {
                reveal_strlit(":");
            }
            self.out.append(":");
            self.key_pending = false;
            assert(self.out@ =~= before + seq![':']);
        } else {
            assert(self.out@ =~= before + Seq::<char>::empty());
        }
    }

    /// Writes a scalar whose text is `piece`.
    fn write_scalar(&mut self, piece: &str)
        ensures
            final(self)@ == old(self)@.scalar(piece@),
    {
        let ghost before = self@;
        self.write_non_map_value_separator();
        self.out.append(piece);
        assert(self.out@ =~= before.text + before.value_separator() + piece@);
    }

    /// Writes `true` or `false`.
    pub fn serialize_bool(&mut self, v: bool) -> (result: Result<(), HuonSerializeError>)
        ensures
            result is Ok,
            final(self)@ == old(self)@.scalar(bool_text(v)),
    {
        proof {
            reveal_strlit("true");
            reveal_strlit("false");
        }
        if v {
            self.write_scalar("true");
            assert("true"@ =~= bool_text(true));
        } else {
            self.write_scalar("false");
            assert("false"@ =~= bool_text(false));
        }
        Ok(())
    }

    /// Writes an integer in decimal.
    pub fn serialize_i64(&mut self, v: i64) -> (result: Result<(), HuonSerializeError>)
        ensures
            result is Ok,
            final(self)@ == old(self)@.scalar(decimal(v as int)),
    {
        let ghost before = self@;
        self.write_non_map_value_separator();
        append_decimal(&mut self.out, v);
        assert(self.out@ =~= before.text + before.value_separator() + decimal(v as int));
        Ok(())
    }

    pub fn serialize_i8(&mut self, v: i8) -> (result: Result<(), HuonSerializeError>)
        ensures
            result is Ok,
            final(self)@ == old(self)@.scalar(decimal(v as int)),
    {
        self.serialize_i64(v as i64)
    }

    pub fn serialize_i16(&mut self, v: i16) -> (result: Result<(), HuonSerializeError>)
        ensures
            result is Ok,
            final(self)@ == old(self)@.scalar(decimal(v as int)),
    {
        self.serialize_i64(v as i64)
    }

    pub fn serialize_i32(&mut self, v: i32) -> (result: Result<(), HuonSerializeError>)
        ensures
            result is Ok,
            final(self)@ == old(self)@.scalar(decimal(v as int)),
    {
        self.serialize_i64(v as i64)
    }

    pub fn serialize_u8(&mut self, _v: u8) -> (result: Result<(), HuonSerializeError>)
        ensures
            unsupported(result, "Unsigned integers are not supported in Huon"@),
            final(self)@ == old(self)@,
    {
        refuse("Unsigned integers are not supported in Huon")
    }

    pub fn serialize_u16(&mut self, _v: u16) -> (result: Result<(), HuonSerializeError>)
        ensures
            unsupported(result, "Unsigned integers are not supported in Huon"@),
            final(self)@ == old(self)@,
    {
        refuse("Unsigned integers are not supported in Huon")
    }

    pub fn serialize_u32(&mut self, _v: u32) -> (result: Result<(), HuonSerializeError>)
        ensures
            unsupported(result, "Unsigned integers are not supported in Huon"@),
            final(self)@ == old(self)@,
    {
        refuse("Unsigned integers are not supported in Huon")
    }

    pub fn serialize_u64(&mut self, _v: u64) -> (result: Result<(), HuonSerializeError>)
        ensures
            unsupported(result, "Unsigned integers are not supported in Huon"@),
            final(self)@ == old(self)@,
    {
        refuse("Unsigned integers are not supported in Huon")
    }

    /// Writes a floating-point number, given as its decimal text.
    pub fn serialize_f64(&mut self, text: &str) -> (result: Result<(), HuonSerializeError>)
        ensures
            result is Ok,
            final(self)@ == old(self)@.scalar(text@),
    {
        self.write_scalar(text);
        Ok(())
    }

    /// Writes a floating-point number of single precision, given as its
    /// decimal text.
    pub fn serialize_f32(&mut self, text: &str) -> (result: Result<(), HuonSerializeError>)
        ensures
            result is Ok,
            final(self)@ == old(self)@.scalar(text@),
    {
        self.serialize_f64(text)
    }

    /// Writes a character as it is, without quotes.
    pub fn serialize_char(&mut self, v: char) -> (result: Result<(), HuonSerializeError>)
        ensures
            result is Ok,
            final(self)@ == old(self)@.scalar(seq![v]),
    {
        let ghost before = self@;
        self.write_non_map_value_separator();
        push_char(&mut self.out, v);
        assert(self.out@ =~= before.text + before.value_separator() + seq![v]);
        Ok(())
    }

    /// Writes a string: a key as it is, a value between double quotes.
    pub fn serialize_str(&mut self, v: &str) -> (result: Result<(), HuonSerializeError>)
        ensures
            result is Ok,
            final(self)@ == old(self)@.string(v@),
    {
        let ghost before = self@;
        self.write_non_map_value_separator();
        if self.is_key {
            self.out.append(v);
            assert(self.out@ =~= before.text + before.value_separator() + v@);
        } else {
            proof {
                reveal_strlit("\"");
            }
            self.out.append("\"");
            self.out.append(v);
            self.out.append("\"");
            assert(self.out@ =~= before.text + before.value_separator() + quoted(v@));
        }
        Ok(())
    }

    pub fn serialize_bytes(&mut self, _v: &[u8]) -> (result: Result<(), HuonSerializeError>)
        ensures
            unsupported(result, "Byte arrays are not supported in Huon"@),
            final(self)@ == old(self)@,
    {
        refuse("Byte arrays are not supported in Huon")
    }

    /// Writes the absence of an optional value.
    pub fn serialize_none(&mut self) -> (result: Result<(), HuonSerializeError>)
        ensures
            result is Ok,
            final(self)@ == old(self)@.scalar(null_text()),
    {
        proof {
            reveal_strlit("null");
        }
        self.write_scalar("null");
        assert("null"@ =~= null_text());
        Ok(())
    }

    pub fn serialize_unit(&mut self) -> (result: Result<(), HuonSerializeError>)
        ensures
            unsupported(result, "Unit is not supported in huon"@),
            final(self)@ == old(self)@,
    {
        refuse("Unit is not supported in huon")
    }

    pub fn serialize_unit_struct(&mut self, _name: &'static str) -> (result: Result<
        (),
        HuonSerializeError,
    >)
        ensures
            unsupported(result, "Unit structs are not supported in huon"@),
            final(self)@ == old(self)@,
    {
        refuse("Unit structs are not supported in huon")
    }

    /// Writes a variant without data as the number of the variant.
    pub fn serialize_unit_variant(
        &mut self,
        _name: &'static str,
        variant_index: u32,
        _variant: &'static str,
    ) -> (result: Result<(), HuonSerializeError>)
        ensures
            result is Ok,
            final(self)@ == old(self)@.scalar(decimal(variant_index as int)),
    {
        self.serialize_i64(variant_index as i64)
    }

    pub fn serialize_seq(&mut self, _len: Option<usize>) -> (result: Result<
        (),
        HuonSerializeError,
    >)
        ensures
            unsupported(result, "Sequences are not supported in huon"@),
            final(self)@ == old(self)@,
    {
        refuse("Sequences are not supported in huon")
    }

    pub fn serialize_tuple(&mut self, _len: usize) -> (result: Result<(), HuonSerializeError>)
        ensures
            unsupported(result, "Tuples are not supported in huon"@),
            final(self)@ == old(self)@,
    {
        refuse("Tuples are not supported in huon")
    }

    pub fn serialize_tuple_struct(&mut self, _name: &'static str, _len: usize) -> (result: Result<
        (),
        HuonSerializeError,
    >)
        ensures
            unsupported(result, "Tuple structs are not supported in huon"@),
            final(self)@ == old(self)@,
    {
        refuse("Tuple structs are not supported in huon")
    }

    pub fn serialize_tuple_variant(
        &mut self,
        _name: &'static str,
        _variant_index: u32,
        _variant: &'static str,
        _len: usize,
    ) -> (result: Result<(), HuonSerializeError>)
        ensures
            unsupported(result, "Tuple variants are not supported in huon"@),
            final(self)@ == old(self)@,
    {
        refuse("Tuple variants are not supported in huon")
    }

    /// Opens an object. The outermost object writes nothing; a nested one
    /// ends the line of its key and is one level deeper.
    pub fn serialize_map(&mut self, _len: Option<usize>) -> (result: Result<
        HuonMapSerializer,
        HuonSerializeError,
    >)
        requires
            !old(self)@.is_root ==> old(self)@.indent_level < usize::MAX,
        ensures
            result is Ok,
            result->Ok_0.is_first(),
            final(self)@ == old(self)@.open_map(),
    {
        let ghost before = self@;
        self.write_map_value_separator();
        if !self.is_root {
            proof {
                reveal_strlit("\n");
            }
            self.out.append("\n");
            self.indent_level += 1;
            assert(self.out@ =~= before.text + before.map_separator() + seq!['\n']);
        } else {
            self.is_root = false;
        }
        Ok(HuonMapSerializer::new())
    }

    /// Opens a record, which is written as an object.
    pub fn serialize_struct(&mut self, _name: &'static str, len: usize) -> (result: Result<
        HuonMapSerializer,
        HuonSerializeError,
    >)
        requires
            !old(self)@.is_root ==> old(self)@.indent_level < usize::MAX,
        ensures
            result is Ok,
            result->Ok_0.is_first(),
            final(self)@ == old(self)@.open_map(),
    {
        self.serialize_map(Some(len))
    }

    pub fn serialize_struct_variant(
        &mut self,
        _name: &'static str,
        _variant_index: u32,
        _variant: &'static str,
        _len: usize,
    ) -> (result: Result<(), HuonSerializeError>)
        ensures
            unsupported(result, "Serializing struct variants is not supported"@),
            final(self)@ == old(self)@,
    {
        refuse("Serializing struct variants is not supported")
    }
}

impl HuonSerializer {
    /// Writes a value of the value tree. A list cannot be written: the
    /// writing stops in front of the first one, with what was written before
    /// it left as it is.
    pub fn write_value(&mut self, value: &HuonValue<'_>) -> (result: Result<
        (),
        HuonSerializeError,
    >)
        requires
            old(self)@.indent_level + node_depth(value.node()) <= usize::MAX,
        ensures
            node_has_list(value.node()) ==> unsupported(
                result,
                "Sequences are not supported in huon"@,
            ),
            !node_has_list(value.node()) ==> result is Ok,
            final(self)@ == written_node(old(self)@, value.node()),
        decreases node_depth(value.node()), 1int,
    {
        match value {
            HuonValue::String(s) => self.serialize_str(s),
            HuonValue::Int(i) => self.serialize_i64(*i),
            HuonValue::Float(f) => self.serialize_f64(f),
            HuonValue::Boolean(b) => {
                let result = self.serialize_bool(*b);
                assert(token_text(TokenView::Boolean(*b)) == bool_text(*b));
                result
            },
            HuonValue::Null => self.serialize_none(),
            HuonValue::List(items) => self.serialize_seq(Some(items.len())),
            HuonValue::Object(map) => self.write_object(map),
        }
    }

    /// Writes an object of the value tree: its entries in the order in which
    /// they are kept, up to the first list.
    #[verifier::loop_isolation(false)]
    pub fn write_object(&mut self, map: &ValueMap<'_>) -> (result: Result<(), HuonSerializeError>)
        requires
            old(self)@.indent_level + node_depth(map.node()) <= usize::MAX,
        ensures
            entries_have_list(map.document(), 0) ==> unsupported(
                result,
                "Sequences are not supported in huon"@,
            ),
            !entries_have_list(map.document(), 0) ==> result is Ok,
            final(self)@ == written_node(old(self)@, map.node()),
        decreases node_depth(map.node()), 0int,
    {
        let ghost document = map.document();
        let ghost opened = self@.open_map();
        let mut access = match self.serialize_map(Some(map.len())) {
            Err(e) => {
                return Err(e);
            },
            Ok(access) => access,
        };
        let count = map.len();
        let mut i: usize = 0;
        while i < count
            invariant
                i <= count,
                count == document.len(),
                document == map.document(),
                access.is_first() == (i == 0),
                !self@.is_root,
                self@.indent_level == opened.indent_level,
                opened.indent_level <= old(self)@.indent_level + 1,
                !entries_have_list(document, i as int) ==> !entries_have_list(document, 0),
                written_entries(opened, document, 0) == written_entries(self@, document, i as int),
            decreases count - i,
        {
            let (key, value) = map.entry(i);
            let ghost before = self@;
            proof {
                lemma_entry_depth(document, 0, i as int);
            }
            let _ = access.serialize_key(self, key);
            match self.write_value(value) {
                Err(e) => {
                    proof {
                        lemma_entries_list(document, 0, i as int);
                        assert(written_entries(before, document, i as int) == self@);
                    }
                    return Err(e);
                },
                Ok(()) => {},
            }
            proof {
                assert(written_entries(before, document, i as int) == written_entries(
                    self@,
                    document,
                    i + 1,
                ));
                lemma_written_node_level(before.key(i == 0, key@), value.node());
            }
            i += 1;
        }
        access.end(self)
    }
}

/// Writing a value within an object leaves the nesting level as it is.
pub proof fn lemma_written_node_level(state: SerializerState, node: Node)
    requires
        !state.is_root,
        !node_has_list(node),
    ensures
        written_node(state, node).indent_level == state.indent_level,
        !written_node(state, node).is_root,
    decreases node, 1int,
{
    match node {
        Node::Object { step, entries } => {
            assert(!entries_have_list(entries, 0));
            lemma_written_entries_level(state.open_map(), entries, 0);
        },
        _ => {},
    }
}

/// Writing entries without a list leaves the nesting level as it is.
pub proof fn lemma_written_entries_level(
    state: SerializerState,
    entries: Seq<Entry>,
    from: int,
)
    requires
        !state.is_root,
        !entries_have_list(entries, from),
    ensures
        written_entries(state, entries, from).indent_level == state.indent_level,
        !written_entries(state, entries, from).is_root,
    decreases entries, entries.len() - from, 0int,
{
    if 0 <= from < entries.len() {
        let keyed = state.key(from == 0, entries[from].key);
        assert(!node_has_list(entries[from].node));
        assert(!entries_have_list(entries, from + 1));
        lemma_written_node_level(keyed, entries[from].node);
        lemma_written_entries_level(written_node(keyed, entries[from].node), entries, from + 1);
    }
}

/// Writes an object of the value tree as the text of a document. A list
/// cannot be written.
pub fn to_string(value: &ValueMap<'_>) -> (result: Result<String, HuonSerializeError>)
    requires
        node_depth(value.node()) <= usize::MAX,
    ensures
        entries_have_list(value.document(), 0) ==> unsupported(
            result,
            "Sequences are not supported in huon"@,
        ),
        !entries_have_list(value.document(), 0) ==> result is Ok && result->Ok_0@
            == written_document(value.document()),
{
    let mut serializer = HuonSerializer::new();
    match serializer.write_object(value) {
        Err(e) => Err(e),
        Ok(()) => Ok(serializer.into_string()),
    }
}

impl HuonMapSerializer {
    /// Whether no key of the object was written yet.
    pub closed spec fn is_first(&self) -> bool {
        self.first
    }

    /// An object of which no key was written yet.
    pub fn new() -> (map: HuonMapSerializer)
        ensures
            map.is_first(),
    {
        HuonMapSerializer { first: true }
    }

    /// Starts a key: a new line for every key but the first, then the
    /// indentation. What the encoder writes next is written as a key.
    pub fn begin_key(&mut self, ser: &mut HuonSerializer)
        ensures
            !final(self).is_first(),
            final(ser)@ == old(ser)@.begin_key(old(self).is_first()),
    {
        let ghost before = ser@;
        if !self.first {
            proof {
                reveal_strlit("\n");
            }
            ser.out.append("\n");
        }
        let ghost lined = ser.out@;
        self.first = false;
        ser.write_indent();
        ser.is_key = true;
        assert(ser.out@ =~= before.text + (if old(self).first {
            Seq::<char>::empty()
        } else {
            seq!['\n']
        }) + spaces(INDENT_WIDTH as nat * before.indent_level));
    }

    /// Ends a key: its separator is written with the value.
    pub fn end_key(&mut self, ser: &mut HuonSerializer)
        ensures
            final(self).is_first() == old(self).is_first(),
            final(ser)@ == old(ser)@.end_key(),
    {
        ser.is_key = false;
        ser.key_pending = true;
    }

    /// Writes a key that is a plain name.
    pub fn serialize_key(&mut self, ser: &mut HuonSerializer, key: &str) -> (result: Result<
        (),
        HuonSerializeError,
    >)
        ensures
            result is Ok,
            !final(self).is_first(),
            final(ser)@ == old(ser)@.key(old(self).is_first(), key@),
    {
        self.begin_key(ser);
        let _ = ser.serialize_str(key);
        self.end_key(ser);
        Ok(())
    }

    /// Closes the object: what follows stands one level higher.
    pub fn end(self, ser: &mut HuonSerializer) -> (result: Result<(), HuonSerializeError>)
        ensures
            result is Ok,
            final(ser)@ == old(ser)@.close_map(),
    {
        if ser.indent_level > 0 {
            ser.indent_level -= 1;
        }
        Ok(())
    }
}

/// Writes `c` behind `text`: `String::push` of the standard library, which
/// appends the given character to the end of the string.
#[verifier::external_body]
fn push_char(text: &mut String, c: char)
    ensures
        final(text)@ == old(text)@.push(c),
{
    text.push(c);
}

} // verus!
