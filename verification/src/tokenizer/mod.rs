//! The scanner: it turns the text of a document into tokens, one per call.

use vstd::prelude::*;
use vstd::string::*;

pub mod number;
pub mod rules;
pub mod text;
pub mod token;

use number::{check_float, is_digit_char, parse_int, IntErrorKind};
use rules::{
    first_failure, in_class, is_identifier_char, keyword, lemma_run_end_is, lemma_scan_advances,
    lemma_tokens_from_step, run_end, scan, scan_number, scan_string, scan_word, tokens_from,
    CharClass, ScanItem,
};
use text::{law_scanned_token_is_sound, token_sound};
use token::{Token, TokenView};

verus! {

/// Why the scanner could not read a token.
#[derive(Debug, Clone, PartialEq)]
pub enum TokenizerError {
    /// The text ended within a token.
    EOF,
    /// A word that is neither a key nor a keyword.
    InvalidIdentifier(String),
    /// A character that no token can hold at its place.
    UnexpectedCharacter(char),
    /// Digits and dots that form no floating-point literal.
    ParseFloatError,
    /// Digits that form no 64-bit integer literal.
    ParseIntError(IntErrorKind),
}

/// A cursor into the text of a document.
///
/// The tokens that hold text borrow it from the input.
#[derive(Debug)]
pub struct Tokenizer<'a> {
    input: &'a str,
    chars: Vec<char>,
    pos: usize,
}

/// What a step of the scanner yields, with the token taken by its content.
pub open spec fn item_view(item: Result<Token<'_>, TokenizerError>) -> ScanItem {
    match item {
        Ok(token) => Ok(token@),
        Err(e) => Err(e),
    }
}

/// The content of each token, in order.
pub open spec fn token_views(tokens: Seq<Token<'_>>) -> Seq<ScanItem> {
    Seq::new(tokens.len(), |i: int| Ok(tokens[i]@))
}

/// Whether `c` can stand in a key: an ASCII letter, a digit or `_`.
pub fn is_valid_identifier_char(c: char) -> (yes: bool)
    ensures
        yes == is_identifier_char(c),
{
    ('a' <= c && c <= 'z') || ('A' <= c && c <= 'Z') || is_digit_char(c) || c == '_'
}

fn has_class(class: &CharClass, c: char) -> (yes: bool)
    ensures
        yes == in_class(*class, c),
{
    match class {
        CharClass::Identifier => is_valid_identifier_char(c),
        CharClass::Number => is_digit_char(c) || c == '.',
        CharClass::Space => c == ' ',
        CharClass::Unquoted => c != '"',
    }
}

fn to_chars(input: &str) -> (chars: Vec<char>)
    ensures
        chars@ == input@,
{
    let mut chars: Vec<char> = Vec::new();
    for c in it: input.chars()
        invariant
            chars@ == it.seq().take(it.index() as int),
    {
        chars.push(c);
    }
    chars
}

impl<'a> Clone for Tokenizer<'a> {
    fn clone(&self) -> (copy: Self)
        ensures
            copy.text() == self.text(),
            copy.cursor() == self.cursor(),
    {
        proof {
            use_type_invariant(self);
        }
        let chars = self.chars.clone();
        assert(chars@ =~= self.chars@);
        Tokenizer { input: self.input, chars, pos: self.pos }
    }
}

impl<'a> Tokenizer<'a> {
    #[verifier::type_invariant]
    spec fn inv(self) -> bool {
        self.chars@ == self.input@ && self.pos <= self.chars.len()
    }

    /// The text that is scanned.
    pub closed spec fn text(&self) -> Seq<char> {
        self.input@
    }

    /// The position of the next character to read.
    pub closed spec fn cursor(&self) -> int {
        self.pos as int
    }

    /// The items that the calls of `next` will yield from here on.
    pub open spec fn remaining(&self) -> Seq<ScanItem> {
        tokens_from(self.text(), self.cursor())
    }

    /// A tokenizer at the start of `input`.
    #[must_use]
    pub fn new(input: &'a str) -> (tokenizer: Self)
        ensures
            tokenizer.text() == input@,
            tokenizer.cursor() == 0,
    {
        Tokenizer { input, chars: to_chars(input), pos: 0 }
    }

    /// Scans the whole of `input` once and hands out a tokenizer at its start,
    /// or the first scan failure.
    pub fn tokenize(input: &'a str) -> (checked: Result<Self, TokenizerError>)
        ensures
            match first_failure(tokens_from(input@, 0)) {
                Some(e) => checked == Err::<Self, TokenizerError>(e),
                None => checked is Ok && checked->Ok_0.text() == input@ && checked->Ok_0.cursor()
                    == 0,
            },
    {
        let mut probe = Tokenizer::new(input);
        loop
            invariant
                probe.text() == input@,
                first_failure(tokens_from(input@, 0)) == first_failure(probe.remaining()),
            decreases probe.remaining().len(),
        {
            match probe.next() {
                None => {
                    return Ok(Tokenizer::new(input));
                },
                Some(Err(e)) => {
                    return Err(e);
                },
                Some(Ok(_)) => {},
            }
        }
    }

    /// The end of the run of characters of `class` that starts at `from`.
    fn skip_run(&self, from: usize, class: CharClass) -> (end: usize)
        requires
            from <= self.text().len(),
        ensures
            end == run_end(self.text(), from as int, class),
            from <= end <= self.text().len(),
    {
        proof {
            use_type_invariant(self);
        }
        let mut end = from;
        while end < self.chars.len() && has_class(&class, self.chars[end])
            invariant
                from <= end <= self.chars.len(),
                self.chars@ == self.text(),
                forall|i: int| from <= i < end ==> in_class(class, #[trigger] self.chars@[i]),
            decreases self.chars.len() - end,
        {
            end += 1;
        }
        proof {
            lemma_run_end_is(self.text(), from as int, end as int, class);
        }
        end
    }

    /// The part of the input from `start` up to `end`, both counted in
    /// characters.
    fn slice(&self, start: usize, end: usize) -> (part: &'a str)
        requires
            start <= end <= self.text().len(),
        ensures
            part@ == self.text().subrange(start as int, end as int),
    {
        self.input.substring_char(start, end)
    }

    /// Reads the word that opens at `pos` to its end.
    fn read_identifier(&self, pos: usize) -> (end: usize)
        requires
            pos < self.text().len(),
        ensures
            end == run_end(self.text(), pos + 1, CharClass::Identifier),
            pos < end <= self.text().len(),
    {
        proof {
            use_type_invariant(self);
        }
        self.skip_run(pos + 1, CharClass::Identifier)
    }

    /// Reads the quoted string that opens at `pos`.
    fn read_string(&self, pos: usize) -> (read: (Result<Token<'a>, TokenizerError>, usize))
        requires
            pos < self.text().len(),
        ensures
            item_view(read.0) == scan_string(self.text(), pos as int).item,
            read.1 == scan_string(self.text(), pos as int).next,
    {
        proof {
            use_type_invariant(self);
        }
        let close = self.skip_run(pos + 1, CharClass::Unquoted);
        if close < self.chars.len() {
            (Ok(Token::Str(self.slice(pos + 1, close))), close + 1)
        } else {
            (Err(TokenizerError::EOF), close)
        }
    }

    /// Reads the number that opens at `pos`.
    fn read_number(&self, pos: usize) -> (read: (Result<Token<'a>, TokenizerError>, usize))
        requires
            pos < self.text().len(),
        ensures
            item_view(read.0) == scan_number(self.text(), pos as int).item,
            read.1 == scan_number(self.text(), pos as int).next,
    {
        proof {
            use_type_invariant(self);
        }
        let end = self.skip_run(pos + 1, CharClass::Number);
        let ghost literal = self.text().subrange(pos as int, end as int);
        let mut is_float = false;
        let mut i: usize = pos;
        while i < end
            invariant
                pos <= i <= end <= self.chars.len(),
                self.chars@ == self.text(),
                is_float <==> exists|j: int| pos <= j < i && self.chars@[j] == '.',
            decreases end - i,
        {
            if self.chars[i] == '.' {
                is_float = true;
            }
            i += 1;
        }
        proof {
            if is_float {
                let j = choose|j: int| pos <= j < end && self.chars@[j] == '.';
                assert(literal[j - pos] == '.');
            } else {
                assert forall|k: int| 0 <= k < literal.len() implies literal[k] != '.' by {
                    assert(literal[k] == self.chars@[pos + k]);
                }
            }
            assert(is_float == literal.contains('.'));
        }
        let item = if is_float {
            if check_float(&self.chars, pos, end) {
                Ok(Token::Float(self.slice(pos, end)))
            } else {
                Err(TokenizerError::ParseFloatError)
            }
        } else {
            match parse_int(&self.chars, pos, end) {
                Ok(value) => Ok(Token::Int(value)),
                Err(kind) => Err(TokenizerError::ParseIntError(kind)),
            }
        };
        (item, end)
    }

    /// Reads the run of spaces that opens at `pos`.
    fn read_whitespace(&self, pos: usize) -> (read: (Result<Token<'a>, TokenizerError>, usize))
        requires
            pos < self.text().len(),
        ensures
            read.1 == run_end(self.text(), pos + 1, CharClass::Space),
            item_view(read.0) == Ok::<TokenView, TokenizerError>(
                TokenView::WhiteSpace((read.1 - pos) as nat),
            ),
    {
        proof {
            use_type_invariant(self);
        }
        let end = self.skip_run(pos + 1, CharClass::Space);
        (Ok(Token::WhiteSpace(end - pos)), end)
    }

    /// Tells which keyword the text from `start` up to `end` is, if any.
    fn parse_keyword(&self, start: usize, end: usize) -> (token: Option<Token<'a>>)
        requires
            start <= end <= self.text().len(),
        ensures
            match keyword(self.text().subrange(start as int, end as int)) {
                Some(view) => token is Some && token->Some_0@ == view,
                None => token is None,
            },
    {
        proof {
            use_type_invariant(self);
        }
        let ghost word = self.text().subrange(start as int, end as int);
        let ghost yes = seq!['t', 'r', 'u', 'e'];
        let ghost no = seq!['f', 'a', 'l', 's', 'e'];
        let ghost null = seq!['n', 'u', 'l', 'l'];
        let chars = &self.chars;
        let len = end - start;
        proof {
            assert forall|k: int| 0 <= k < len implies word[k] == chars@[start + k] by {}
        }
        let is_yes = len == 4 && chars[start] == 't' && chars[start + 1] == 'r' && chars[start + 2]
            == 'u' && chars[start + 3] == 'e';
        let is_no = len == 5 && chars[start] == 'f' && chars[start + 1] == 'a' && chars[start + 2]
            == 'l' && chars[start + 3] == 's' && chars[start + 4] == 'e';
        let is_null = len == 4 && chars[start] == 'n' && chars[start + 1] == 'u' && chars[start + 2]
            == 'l' && chars[start + 3] == 'l';
        proof {
            assert(is_yes == (word == yes)) by {
                if is_yes {
                    assert(word =~= yes);
                } else if word == yes {
                    assert(word.len() == 4);
                    assert(word[0] == 't' && word[1] == 'r' && word[2] == 'u' && word[3] == 'e');
                }
            }
            assert(is_no == (word == no)) by {
                if is_no {
                    assert(word =~= no);
                } else if word == no {
                    assert(word.len() == 5);
                    assert(word[0] == 'f' && word[1] == 'a' && word[2] == 'l' && word[3] == 's'
                        && word[4] == 'e');
                }
            }
            assert(is_null == (word == null)) by {
                if is_null {
                    assert(word =~= null);
                } else if word == null {
                    assert(word.len() == 4);
                    assert(word[0] == 'n' && word[1] == 'u' && word[2] == 'l' && word[3] == 'l');
                }
            }
        }
        if is_yes {
            Some(Token::Boolean(true))
        } else if is_no {
            Some(Token::Boolean(false))
        } else if is_null {
            Some(Token::Null)
        } else {
            None
        }
    }

    /// Reads the word that opens at `pos`: a key or a keyword.
    fn read_word(&self, pos: usize) -> (read: (Result<Token<'a>, TokenizerError>, usize))
        requires
            pos < self.text().len(),
        ensures
            item_view(read.0) == scan_word(self.text(), pos as int).item,
            read.1 == scan_word(self.text(), pos as int).next,
    {
        proof {
            use_type_invariant(self);
        }
        let end = self.read_identifier(pos);
        if end < self.chars.len() && self.chars[end] == ':' {
            (Ok(Token::Identifier(self.slice(pos, end))), end + 1)
        } else {
            match self.parse_keyword(pos, end) {
                Some(token) => (Ok(token), end),
                None => (Err(TokenizerError::UnexpectedCharacter(self.chars[pos])), end),
            }
        }
    }

    /// The item that starts at `pos` and the position behind it.
    fn scan_at(&self, pos: usize) -> (read: (Result<Token<'a>, TokenizerError>, usize))
        requires
            pos < self.text().len(),
        ensures
            item_view(read.0) == scan(self.text(), pos as int).item,
            read.1 == scan(self.text(), pos as int).next,
            pos < read.1 <= self.text().len(),
            read.0 matches Ok(token) ==> token_sound(token@),
    {
        proof {
            use_type_invariant(self);
            lemma_scan_advances(self.text(), pos as int);
            law_scanned_token_is_sound(self.text(), pos as int);
        }
        let c = self.chars[pos];
        if c == '"' {
            self.read_string(pos)
        } else if is_digit_char(c) || c == '-' {
            self.read_number(pos)
        } else if is_valid_identifier_char(c) {
            self.read_word(pos)
        } else if c == '[' {
            (Ok(Token::ListStart), pos + 1)
        } else if c == ']' {
            (Ok(Token::ListEnd), pos + 1)
        } else if c == ',' {
            (Ok(Token::Separator), pos + 1)
        } else if c == '\n' {
            (Ok(Token::NewLine), pos + 1)
        } else if c == '\r' {
            if pos + 1 < self.chars.len() {
                let follower = self.chars[pos + 1];
                if follower == '\n' {
                    (Ok(Token::NewLine), pos + 2)
                } else {
                    (Err(TokenizerError::UnexpectedCharacter(follower)), pos + 1)
                }
            } else {
                (Err(TokenizerError::EOF), pos + 1)
            }
        } else if c == ' ' {
            self.read_whitespace(pos)
        } else {
            (Err(TokenizerError::UnexpectedCharacter(c)), pos + 1)
        }
    }

    /// The next item, without moving the cursor. `None` at the end of the text.
    pub fn peek(&self) -> (item: Option<Result<Token<'a>, TokenizerError>>)
        ensures
            self.remaining().len() == 0 ==> item is None,
            self.remaining().len() > 0 ==> item is Some && item_view(item->Some_0)
                == self.remaining()[0],
            item matches Some(Ok(token)) ==> token_sound(token@),
    {
        proof {
            use_type_invariant(self);
        }
        if self.pos < self.chars.len() {
            proof {
                lemma_tokens_from_step(self.text(), self.cursor());
            }
            Some(self.scan_at(self.pos).0)
        } else {
            None
        }
    }

    /// The next item; the cursor moves behind it. `None` at the end of the
    /// text, which is no failure.
    pub fn next(&mut self) -> (item: Option<Result<Token<'a>, TokenizerError>>)
        ensures
            final(self).text() == old(self).text(),
            old(self).remaining().len() == 0 ==> item is None && final(self).remaining() == old(
                self).remaining(),
            old(self).remaining().len() > 0 ==> item is Some && item_view(item->Some_0) == old(
                self).remaining()[0] && final(self).remaining() == old(
                self).remaining().drop_first(),
            old(self).cursor() < old(self).text().len() ==> item is Some && item_view(item->Some_0)
                == scan(old(self).text(), old(self).cursor()).item && final(self).cursor() == scan(
                old(self).text(),
                old(self).cursor(),
            ).next,
            old(self).cursor() >= old(self).text().len() ==> item is None && final(self).cursor()
                == old(self).cursor(),
            item matches Some(Ok(token)) ==> token_sound(token@),
    {
        proof {
            use_type_invariant(&*self);
        }
        if self.pos < self.chars.len() {
            proof {
                lemma_tokens_from_step(self.text(), self.cursor());
            }
            let (item, next) = self.scan_at(self.pos);
            self.pos = next;
            Some(item)
        } else {
            None
        }
    }

    /// All the tokens from the cursor to the end of the text, or the first
    /// scan failure.
    pub fn tokens(self) -> (all: Result<Vec<Token<'a>>, TokenizerError>)
        ensures
            match first_failure(self.remaining()) {
                Some(e) => all == Err::<Vec<Token<'a>>, TokenizerError>(e),
                None => all is Ok && token_views(all->Ok_0@) == self.remaining(),
            },
    {
        let mut tokenizer = self;
        let mut tokens: Vec<Token<'a>> = Vec::new();
        loop
            invariant
                first_failure(self.remaining()) == first_failure(tokenizer.remaining()),
                first_failure(tokenizer.remaining()) is None ==> self.remaining() == token_views(
                    tokens@,
                ) + tokenizer.remaining(),
            decreases tokenizer.remaining().len(),
        {
            let ghost before = tokenizer.remaining();
            let ghost seen = tokens@;
            match tokenizer.next() {
                None => {
                    proof {
                        assert(token_views(tokens@) + before == token_views(tokens@));
                    }
                    return Ok(tokens);
                },
                Some(Err(e)) => {
                    return Err(e);
                },
                Some(Ok(token)) => {
                    tokens.push(token);
                    proof {
                        if first_failure(tokenizer.remaining()) is None {
                            assert(token_views(tokens@) + tokenizer.remaining() == token_views(seen)
                                + before);
                        }
                    }
                },
            }
        }
    }
}

} // verus!
