use vstd::prelude::*;

verus! {

/// The mathematical content of a [`Token`]: text payloads are sequences of
/// characters, a run of spaces is its length.
pub enum TokenView {
    Identifier(Seq<char>),
    Str(Seq<char>),
    Int(i64),
    Float(Seq<char>),
    NewLine,
    WhiteSpace(nat),
    Boolean(bool),
    Null,
    ListStart,
    ListEnd,
    Separator,
}

/// One lexical unit of a document.
///
/// Text payloads borrow from the scanned input. A floating-point literal is
/// carried as the text of the literal, an optional `-`, digits and one `.`.
#[derive(Debug, Clone, Copy, PartialEq, PartialOrd)]
pub enum Token<'a> {
    Identifier(&'a str),
    Str(&'a str),
    Int(i64),
    Float(&'a str),
    NewLine,
    WhiteSpace(usize),
    Boolean(bool),
    Null,
    ListStart,
    ListEnd,
    Separator,
}

impl<'a> View for Token<'a> {
    type V = TokenView;

    open spec fn view(&self) -> TokenView {
        match *self {
            Token::Identifier(s) => TokenView::Identifier(s@),
            Token::Str(s) => TokenView::Str(s@),
            Token::Int(i) => TokenView::Int(i),
            Token::Float(s) => TokenView::Float(s@),
            Token::NewLine => TokenView::NewLine,
            Token::WhiteSpace(n) => TokenView::WhiteSpace(n as nat),
            Token::Boolean(b) => TokenView::Boolean(b),
            Token::Null => TokenView::Null,
            Token::ListStart => TokenView::ListStart,
            Token::ListEnd => TokenView::ListEnd,
            Token::Separator => TokenView::Separator,
        }
    }
}

impl TokenView {
    /// Whether the token carries a payload of its own or stands for a literal.
    pub open spec fn is_value(self) -> bool {
        self is Identifier || self is Str || self is Int || self is Float || self is Boolean
            || self is Null
    }
}

impl Token<'_> {
    /// Whether the token carries a payload of its own or stands for a
    /// literal.
    pub fn is_value(&self) -> (yes: bool)
        ensures
            yes == self@.is_value(),
    {
        match self {
            Token::Identifier(_) => true,
            Token::Str(_) => true,
            Token::Int(_) => true,
            Token::Float(_) => true,
            Token::Boolean(_) => true,
            Token::Null => true,
            _ => false,
        }
    }
}

} // verus!
