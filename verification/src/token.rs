//! Tokens, errors and the tokenizer.

use vstd::prelude::*;
use vstd::string::StringExecFns;
use crate::chars::{decode_escape, digit, is_whitespace};
use crate::number::{is_number, lemma_number_grammar};
use crate::offset::{byte_offset, lemma_offset_monotonic, lemma_offset_step, width};
use crate::scan::{
    char_at, digits_end, false_text, null_text, number_token, scan_boolean, scan_exponent,
    scan_fraction, scan_integer, scan_null, scan_number, scan_string, scan_string_body,
    scan_token, skip_whitespace, string_token, text_at, true_text, Scan, TokenView,
};

verus! {

/// `String::push` of the standard library, which appends one character to
/// the end of a string: afterwards the string reads as before, followed by
/// `c`. Trusted: the standard library is not verified here.
pub assume_specification[ std::string::String::push ](s: &mut std::string::String, c: char)
    ensures
        final(s)@ == old(s)@.push(c),
;

/// A lexical unit. `Integer`, `Fraction` and `Exponent` are the fragments a
/// `Number` is assembled from; `Tokenizer::next` never returns them.
#[derive(Debug, PartialEq, Eq)]
pub enum Token {
    LeftBracket,
    RightBracket,
    LeftBrace,
    RightBrace,
    Comma,
    Colon,
    Number(String),
    Integer(String),
    Fraction(String),
    Exponent(String),
    String(String),
    Bool(bool),
    Null,
}

impl View for Token {
    type V = TokenView;

    open spec fn view(&self) -> TokenView {
        match self {
            Token::LeftBracket => TokenView::LeftBracket,
            Token::RightBracket => TokenView::RightBracket,
            Token::LeftBrace => TokenView::LeftBrace,
            Token::RightBrace => TokenView::RightBrace,
            Token::Comma => TokenView::Comma,
            Token::Colon => TokenView::Colon,
            Token::Number(t) => TokenView::Number(t@),
            Token::Integer(t) => TokenView::Integer(t@),
            Token::Fraction(t) => TokenView::Fraction(t@),
            Token::Exponent(t) => TokenView::Exponent(t@),
            Token::String(t) => TokenView::String(t@),
            Token::Bool(b) => TokenView::Bool(*b),
            Token::Null => TokenView::Null,
        }
    }
}

impl Token {
    /// The single character of a structural token; `None` for the others.
    pub fn to_char(self) -> (c: Option<char>)
        ensures
            c == self@.structural_char(),
    {
        match self {
            Token::LeftBracket => Some('['),
            Token::RightBracket => Some(']'),
            Token::LeftBrace => Some('{'),
            Token::RightBrace => Some('}'),
            Token::Comma => Some(','),
            Token::Colon => Some(':'),
            _ => None,
        }
    }
}

/// Why reading failed.
#[derive(Debug, Clone, Copy, PartialEq, Eq, Structural)]
pub enum Error {
    /// Reserved; nothing in this library produces it.
    SomethingError,
    /// The text ended where a token or a value was expected.
    EOF,
    /// A backslash in a string is followed by a character that begins no
    /// recognised escape sequence.
    InvalidEscapeChar,
    /// A string was asked for where no quote stands.
    InvalidString,
    /// A numeric literal lacks the digits it requires.
    InvalidNumber,
    /// A character or a token is none of those expected at its place.
    InvalidToken,
}

/// `result` is what a caller gets where the scanner's outcome is `outcome`:
/// the token with that view, or the same error.
pub open spec fn yields(result: Result<Option<Token>, Error>, outcome: Result<TokenView, Error>) -> bool {
    match outcome {
        Ok(view) => result matches Ok(Some(token)) && token@ == view,
        Err(e) => result == Err::<Option<Token>, Error>(e),
    }
}

/// What was read so far, followed by what `rest` reads.
pub open spec fn continued(read: Seq<char>, rest: Scan<Seq<char>>) -> Scan<Seq<char>> {
    Scan {
        outcome: match rest.outcome {
            Ok(t) => Ok(read + t),
            Err(e) => Err(e),
        },
        end: rest.end,
    }
}

/// Where the cursor stands: the index of the next character and the byte
/// offset at which it starts.
#[derive(Clone, Copy)]
struct Mark {
    index: usize,
    offset: usize,
}

/// A cursor over a text that hands out one token at a time.
pub struct Tokenizer {
    chars: Vec<char>,
    mark: Mark,
}

impl Tokenizer {
    #[verifier::type_invariant]
    pub closed spec fn well_formed(self) -> bool {
        &&& self.mark.index <= self.chars@.len()
        &&& self.mark.offset == byte_offset(self.chars@, self.mark.index as int)
        &&& byte_offset(self.chars@, self.chars@.len() as int) <= usize::MAX
    }

    /// The whole text, consumed part included.
    pub closed spec fn input(&self) -> Seq<char> {
        self.chars@
    }

    /// The number of characters consumed so far.
    pub closed spec fn position(&self) -> int {
        self.mark.index as int
    }

    /// The cursor never leaves the text.
    pub proof fn lemma_position_in_bounds(&self)
        requires
            self.well_formed(),
        ensures
            0 <= self.position() <= self.input().len(),
    {
    }

    /// A tokenizer at the start of `input`.
    pub fn new(input: &str) -> (tokenizer: Tokenizer)
        ensures
            tokenizer.input() == input@,
            tokenizer.position() == 0,
    {
        // A text has at most as many characters as bytes, and its bytes fit
        // in memory: so does every byte offset into it.
        let bytes = input.as_bytes().len();
        let mut chars: Vec<char> = Vec::with_capacity(bytes);
        for c in it: input.chars()
            invariant
                it.seq() == input@,
                chars@ == input@.take(it.index() as int),
        {
            chars.push(c);
        }
        proof {
            assert(chars@ == input@);
            assert(chars@.take(chars@.len() as int) == chars@);
            assert(chars@.take(0) == Seq::<char>::empty());
            assert(bytes == byte_offset(chars@, chars@.len() as int));
        }
        Tokenizer { chars, mark: Mark { index: 0, offset: 0 } }
    }

    /// The next character and the byte offset at which it starts, without
    /// consuming it; `None` at the end of the text.
    pub fn peek(&mut self) -> (next: Option<(usize, char)>)
        ensures
            *final(self) == *old(self),
            next == if old(self).position() < old(self).input().len() {
                Some(
                    (
                        byte_offset(old(self).input(), old(self).position()) as usize,
                        old(self).input()[old(self).position()],
                    ),
                )
            } else {
                None
            },
    {
        proof {
            use_type_invariant(&*self);
        }
        if self.mark.index < self.chars.len() {
            Some((self.mark.offset, self.chars[self.mark.index]))
        } else {
            None
        }
    }

    /// Consumes the next character and returns it with the byte offset at
    /// which it starts; `None`, and nothing consumed, at the end of the text.
    pub fn one(&mut self) -> (next: Option<(usize, char)>)
        ensures
            final(self).input() == old(self).input(),
            next == if old(self).position() < old(self).input().len() {
                Some(
                    (
                        byte_offset(old(self).input(), old(self).position()) as usize,
                        old(self).input()[old(self).position()],
                    ),
                )
            } else {
                None
            },
            0 <= old(self).position() <= final(self).position() <= final(self).input().len(),
            final(self).position() == if next is Some {
                old(self).position() + 1
            } else {
                old(self).position()
            },
    {
        proof {
            use_type_invariant(&*self);
        }
        if self.mark.index < self.chars.len() {
            let c = self.chars[self.mark.index];
            let at = self.mark.offset;
            let w = width(c);
            proof {
                lemma_offset_step(self.chars@, self.mark.index as int);
                lemma_offset_monotonic(
                    self.chars@,
                    self.mark.index as int + 1,
                    self.chars@.len() as int,
                );
            }
            self.mark = Mark { index: self.mark.index + 1, offset: at + w };
            Some((at, c))
        } else {
            None
        }
    }

    /// Consumes one character; `false` at the end of the text.
    pub fn eat_one(&mut self) -> (eaten: bool)
        ensures
            final(self).input() == old(self).input(),
            eaten == (old(self).position() < old(self).input().len()),
            0 <= old(self).position() <= final(self).position() <= final(self).input().len(),
            final(self).position() == if eaten {
                old(self).position() + 1
            } else {
                old(self).position()
            },
    {
        match self.one() {
            Some(_) => true,
            _ => false,
        }
    }

    /// Consumes the next character if it is `c`, and nothing otherwise.
    pub fn eatc(&mut self, c: char) -> (eaten: bool)
        ensures
            final(self).input() == old(self).input(),
            eaten == char_at(old(self).input(), old(self).position(), c),
            0 <= old(self).position() <= final(self).position() <= final(self).input().len(),
            final(self).position() == if eaten {
                old(self).position() + 1
            } else {
                old(self).position()
            },
    {
        proof {
            use_type_invariant(&*self);
        }
        match self.peek() {
            Some((_, val)) => {
                if c == val {
                    self.eat_one();
                    true
                } else {
                    false
                }
            },
            None => false,
        }
    }

    /// Consumes the text `s` if it stands next in full, and nothing
    /// otherwise.
    pub fn eats(&mut self, s: &str) -> (eaten: bool)
        ensures
            final(self).input() == old(self).input(),
            eaten == text_at(old(self).input(), old(self).position(), s@),
            0 <= old(self).position() <= final(self).position() <= final(self).input().len(),
            final(self).position() == if eaten {
                old(self).position() + s@.len()
            } else {
                old(self).position()
            },
    {
        proof {
            use_type_invariant(&*self);
        }
        let start = self.mark.index;
        let mut count: usize = 0;
        #[verifier::loop_isolation(false)]
        for c in it: s.chars()
            invariant
                it.seq() == s@,
                count == it.index(),
                start + count <= self.chars.len(),
                self.chars@.subrange(start as int, start + count) == s@.take(count as int),
        {
            if start + count >= self.chars.len() || self.chars[start + count] != c {
                proof {
                    let text = self.chars@;
                    if start + s@.len() <= text.len() {
                        assert(text.subrange(start as int, start + s@.len())[count as int]
                            == text[start + count]);
                    }
                }
                return false;
            }
            proof {
                assert(self.chars@.subrange(start as int, start + count + 1)
                    == self.chars@.subrange(start as int, start + count).push(c));
                assert(s@.take(count + 1) == s@.take(count as int).push(c));
            }
            count = count + 1;
        }
        proof {
            assert(s@.take(count as int) == s@);
        }
        let mut eaten: usize = 0;
        while eaten < count
            invariant
                eaten <= count,
                start + count <= self.input().len(),
                self.input() == old(self).input(),
                self.position() == start + eaten,
            decreases count - eaten,
        {
            self.one();
            eaten = eaten + 1;
        }
        true
    }

    /// Consumes one whitespace character (space, line feed, carriage
    /// return or horizontal tab) if one stands next.
    pub fn eat_whitespace(&mut self) -> (eaten: bool)
        ensures
            final(self).input() == old(self).input(),
            eaten == (old(self).position() < old(self).input().len() && is_whitespace(
                old(self).input()[old(self).position()],
            )),
            0 <= old(self).position() <= final(self).position() <= final(self).input().len(),
            final(self).position() == if eaten {
                old(self).position() + 1
            } else {
                old(self).position()
            },
    {
        proof {
            use_type_invariant(&*self);
        }
        if self.eatc(' ') {
            true
        } else if self.eatc('\n') {
            true
        } else if self.eatc('\r') {
            true
        } else {
            self.eatc('\t')
        }
    }

    /// Consumes the maximal run of whitespace that stands next, and tells
    /// whether it consumed anything.
    pub fn eat_whitespaces(&mut self) -> (eaten: bool)
        ensures
            final(self).input() == old(self).input(),
            0 <= old(self).position() <= final(self).position() <= final(self).input().len(),
            final(self).position() == skip_whitespace(old(self).input(), old(self).position()),
            eaten == (final(self).position() > old(self).position()),
    {
        proof {
            use_type_invariant(&*self);
        }
        if !self.eat_whitespace() {
            return false;
        }
        loop
            invariant
                self.input() == old(self).input(),
                old(self).position() < self.position() <= self.input().len(),
                skip_whitespace(self.input(), self.position()) == skip_whitespace(
                    old(self).input(),
                    old(self).position(),
                ),
            ensures
                self.input() == old(self).input(),
                old(self).position() < self.position(),
                self.position() == skip_whitespace(old(self).input(), old(self).position()),
            decreases self.input().len() - self.position(),
        {
            if !self.eat_whitespace() {
                break;
            }
            proof {
                use_type_invariant(&*self);
            }
        }
        true
    }

    /// Reads a quoted string: the opening quote, then characters up to the
    /// closing quote, with escape sequences resolved. Fails with
    /// `InvalidString` where no quote stands next, with `EOF` where the text
    /// ends before the closing quote, and with `InvalidEscapeChar` at a
    /// backslash that begins no recognised escape sequence; `\u` begins
    /// none.
    pub fn string(&mut self) -> (token: Result<Option<Token>, Error>)
        ensures
            final(self).input() == old(self).input(),
            0 <= old(self).position() <= final(self).position() <= final(self).input().len(),
            final(self).position() == scan_string(old(self).input(), old(self).position()).end,
            yields(token, string_token(scan_string(old(self).input(), old(self).position())).outcome),
    {
        proof {
            use_type_invariant(&*self);
        }
        let mut val = String::new();
        if !self.eatc('"') {
            return Err(Error::InvalidString);
        }
        let ghost whole = scan_string(old(self).input(), old(self).position());
        proof {
            if whole.outcome is Ok {
                assert(val@ + whole.outcome->Ok_0 == whole.outcome->Ok_0);
            }
        }
        loop
            invariant
                self.input() == old(self).input(),
                old(self).position() < self.position() <= self.input().len(),
                whole == scan_string(old(self).input(), old(self).position()),
                whole == continued(
                    val@,
                    scan_string_body(self.input(), self.position()),
                ),
            decreases self.input().len() - self.position(),
        {
            let ghost before = self.position();
            let ghost text = self.input();
            let ghost read = val@;
            match self.one() {
                None => {
                    return Err(Error::EOF);
                },
                Some((_, '"')) => {
                    proof {
                        assert(read + Seq::<char>::empty() == read);
                    }
                    return Ok(Some(Token::String(val)));
                },
                Some((_, '\\')) => {
                    match self.peek() {
                        None => {
                            return Err(Error::EOF);
                        },
                        Some((_, c)) => {
                            match decode_escape(c) {
                                None => {
                                    return Err(Error::InvalidEscapeChar);
                                },
                                Some(decoded) => {
                                    self.one();
                                    val.push(decoded);
                                    proof {
                                        let rest = scan_string_body(text, before + 2);
                                        if rest.outcome is Ok {
                                            assert(read + (seq![decoded] + rest.outcome->Ok_0)
                                                == read.push(decoded) + rest.outcome->Ok_0);
                                        }
                                    }
                                },
                            }
                        },
                    }
                },
                Some((_, c)) => {
                    val.push(c);
                    proof {
                        let rest = scan_string_body(text, before + 1);
                        if rest.outcome is Ok {
                            assert(read + (seq![c] + rest.outcome->Ok_0) == read.push(c)
                                + rest.outcome->Ok_0);
                        }
                    }
                },
            }
            proof {
                use_type_invariant(&*self);
            }
        }
    }

    /// Consumes the maximal run of digits that stands next and appends it
    /// to `val`.
    fn digits(&mut self, val: &mut String)
        ensures
            final(self).input() == old(self).input(),
            0 <= old(self).position() <= final(self).position() <= final(self).input().len(),
            final(self).position() == digits_end(old(self).input(), old(self).position()),
            final(val)@ == old(val)@ + old(self).input().subrange(
                old(self).position(),
                final(self).position(),
            ),
    {
        proof {
            use_type_invariant(&*self);
            assert(old(val)@ + self.input().subrange(self.position(), self.position()) == old(
                val,
            )@);
        }
        loop
            invariant
                self.input() == old(self).input(),
                0 <= old(self).position() <= self.position() <= self.input().len(),
                digits_end(self.input(), self.position()) == digits_end(
                    old(self).input(),
                    old(self).position(),
                ),
                val@ == old(val)@ + self.input().subrange(old(self).position(), self.position()),
            ensures
                self.input() == old(self).input(),
                self.position() == digits_end(old(self).input(), old(self).position()),
                val@ == old(val)@ + self.input().subrange(old(self).position(), self.position()),
            decreases self.input().len() - self.position(),
        {
            let ghost before = self.position();
            match self.peek() {
                Some((_, c)) => {
                    if digit(c) {
                        self.eat_one();
                        val.push(c);
                        proof {
                            use_type_invariant(&*self);
                            let text = self.input();
                            let from = old(self).position();
                            assert(text.subrange(from, before + 1) == text.subrange(
                                from,
                                before,
                            ).push(c));
                            assert(old(val)@ + text.subrange(from, before).push(c) == (old(val)@
                                + text.subrange(from, before)).push(c));
                        }
                    } else {
                        break;
                    }
                },
                None => {
                    break;
                },
            }
        }
    }

    /// Reads the integer part of a number: an optional minus sign, then a
    /// single `0` or a non-empty run of digits. After a leading `0` the
    /// part ends at once: digits that follow are left unread. Fails with
    /// `InvalidNumber` where no digit stands in its place.
    pub fn integer(&mut self) -> (token: Result<Option<Token>, Error>)
        ensures
            final(self).input() == old(self).input(),
            0 <= old(self).position() <= final(self).position() <= final(self).input().len(),
            final(self).position() == scan_integer(old(self).input(), old(self).position()).end,
            match scan_integer(old(self).input(), old(self).position()).outcome {
                Ok(text) => token matches Ok(Some(Token::Integer(t))) && t@ == text,
                Err(e) => token == Err::<Option<Token>, Error>(e),
            },
    {
        proof {
            use_type_invariant(&*self);
        }
        let ghost text = self.input();
        let ghost start = self.position();
        let mut val = String::new();
        if self.eatc('-') {
            val.push('-');
        }
        let ghost first = self.position();
        proof {
            use_type_invariant(&*self);
            assert(val@ == text.subrange(start, first));
        }
        if self.eatc('0') {
            val.push('0');
            proof {
                assert(text.subrange(start, first + 1) == text.subrange(start, first).push('0'));
            }
            return Ok(Some(Token::Integer(val)));
        }
        match self.peek() {
            Some((_, c)) => {
                if !digit(c) {
                    return Err(Error::InvalidNumber);
                }
            },
            None => {
                return Err(Error::InvalidNumber);
            },
        }
        self.digits(&mut val);
        proof {
            assert(text.subrange(start, first) + text.subrange(first, self.position())
                == text.subrange(start, self.position()));
        }
        Ok(Some(Token::Integer(val)))
    }

    /// Reads a non-empty run of digits, as it follows a decimal point.
    /// Fails with `InvalidNumber`, and consumes nothing, where no digit
    /// stands next.
    pub fn fraction(&mut self) -> (token: Result<Option<Token>, Error>)
        ensures
            final(self).input() == old(self).input(),
            0 <= old(self).position() <= final(self).position() <= final(self).input().len(),
            final(self).position() == scan_fraction(old(self).input(), old(self).position()).end,
            match scan_fraction(old(self).input(), old(self).position()).outcome {
                Ok(text) => token matches Ok(Some(Token::Fraction(t))) && t@ == text,
                Err(e) => token == Err::<Option<Token>, Error>(e),
            },
    {
        proof {
            use_type_invariant(&*self);
        }
        let mut val = String::new();
        match self.peek() {
            Some((_, c)) => {
                if !digit(c) {
                    return Err(Error::InvalidNumber);
                }
            },
            None => {
                return Err(Error::InvalidNumber);
            },
        }
        self.digits(&mut val);
        Ok(Some(Token::Fraction(val)))
    }

    /// Reads an exponent, from after its `e` or `E`: an optional sign, then
    /// a non-empty run of digits. Fails with `InvalidNumber` where no digit
    /// stands in its place.
    pub fn exponent(&mut self) -> (token: Result<Option<Token>, Error>)
        ensures
            final(self).input() == old(self).input(),
            0 <= old(self).position() <= final(self).position() <= final(self).input().len(),
            final(self).position() == scan_exponent(old(self).input(), old(self).position()).end,
            match scan_exponent(old(self).input(), old(self).position()).outcome {
                Ok(text) => token matches Ok(Some(Token::Exponent(t))) && t@ == text,
                Err(e) => token == Err::<Option<Token>, Error>(e),
            },
    {
        proof {
            use_type_invariant(&*self);
        }
        let ghost text = self.input();
        let ghost start = self.position();
        let mut val = String::new();
        if self.eatc('-') {
            val.push('-');
        } else if self.eatc('+') {
            val.push('+');
        }
        let ghost first = self.position();
        proof {
            use_type_invariant(&*self);
            assert(val@ == text.subrange(start, first));
        }
        match self.fraction() {
            Ok(Some(Token::Fraction(f))) => {
                val.append(f.as_str());
                proof {
                    assert(text.subrange(start, first) + text.subrange(first, self.position())
                        == text.subrange(start, self.position()));
                }
                Ok(Some(Token::Exponent(val)))
            },
            _ => Err(Error::InvalidNumber),
        }
    }

    /// Reads a number and returns its text verbatim: the integer part, a
    /// fraction if a decimal point follows, and an exponent if `e` or `E`
    /// follows. The text returned is a number of the JSON grammar. Every
    /// failure is `InvalidNumber`: digits are missing where the integer
    /// part, the fraction or the exponent needs one.
    pub fn number(&mut self) -> (token: Result<Option<Token>, Error>)
        ensures
            final(self).input() == old(self).input(),
            0 <= old(self).position() <= final(self).position() <= final(self).input().len(),
            final(self).position() == scan_number(old(self).input(), old(self).position()).end,
            yields(token, number_token(scan_number(old(self).input(), old(self).position())).outcome),
            token matches Ok(Some(Token::Number(t))) ==> is_number(t@),
    {
        proof {
            use_type_invariant(&*self);
            if scan_number(self.input(), self.position()).outcome is Ok {
                lemma_number_grammar(self.input(), self.position());
            }
        }
        let ghost text = self.input();
        let ghost start = self.position();
        let mut val = String::new();
        match self.integer() {
            Ok(Some(Token::Integer(n))) => {
                val.append(n.as_str());
            },
            _ => {
                return Err(Error::InvalidNumber);
            },
        }
        let ghost integer_end = self.position();
        proof {
            use_type_invariant(&*self);
            assert(val@ == text.subrange(start, integer_end));
        }
        if self.eatc('.') {
            val.push('.');
            match self.fraction() {
                Ok(Some(Token::Fraction(n))) => {
                    val.append(n.as_str());
                },
                _ => {
                    return Err(Error::InvalidNumber);
                },
            }
            proof {
                assert(text.subrange(start, integer_end).push('.') + text.subrange(
                    integer_end + 1,
                    self.position(),
                ) == text.subrange(start, self.position()));
            }
        }
        let ghost mark = self.position();
        proof {
            use_type_invariant(&*self);
            assert(val@ == text.subrange(start, mark));
        }
        if self.eatc('e') {
            val.push('e');
        } else if self.eatc('E') {
            val.push('E');
        } else {
            return Ok(Some(Token::Number(val)));
        }
        match self.exponent() {
            Ok(Some(Token::Exponent(n))) => {
                val.append(n.as_str());
                proof {
                    let c = text[mark];
                    assert(text.subrange(start, mark).push(c) + text.subrange(
                        mark + 1,
                        self.position(),
                    ) == text.subrange(start, self.position()));
                }
                Ok(Some(Token::Number(val)))
            },
            _ => Err(Error::InvalidNumber),
        }
    }

    /// Reads the literal `true` or `false`; otherwise fails with
    /// `InvalidToken` and consumes nothing.
    pub fn boolean(&mut self) -> (token: Result<Option<Token>, Error>)
        ensures
            final(self).input() == old(self).input(),
            0 <= old(self).position() <= final(self).position() <= final(self).input().len(),
            final(self).position() == scan_boolean(old(self).input(), old(self).position()).end,
            yields(token, scan_boolean(old(self).input(), old(self).position()).outcome),
    {
        proof {
            use_type_invariant(&*self);
            reveal_strlit("true");
            reveal_strlit("false");
            assert("true"@ == true_text());
            assert("false"@ == false_text());
        }
        if self.eats("true") {
            Ok(Some(Token::Bool(true)))
        } else if self.eats("false") {
            Ok(Some(Token::Bool(false)))
        } else {
            Err(Error::InvalidToken)
        }
    }

    /// Reads the literal `null`; otherwise fails with `InvalidToken` and
    /// consumes nothing.
    pub fn null(&mut self) -> (token: Result<Option<Token>, Error>)
        ensures
            final(self).input() == old(self).input(),
            0 <= old(self).position() <= final(self).position() <= final(self).input().len(),
            final(self).position() == scan_null(old(self).input(), old(self).position()).end,
            yields(token, scan_null(old(self).input(), old(self).position()).outcome),
    {
        proof {
            use_type_invariant(&*self);
            reveal_strlit("null");
            assert("null"@ == null_text());
        }
        if self.eats("null") {
            Ok(Some(Token::Null))
        } else {
            Err(Error::InvalidToken)
        }
    }

    /// Reads the token that begins with the next character: a structural
    /// token at one of `{ } [ ] , :`, a string at a quote, a number at a
    /// digit or a minus sign, `true` or `false` at `t` or `f`, `null` at
    /// `n`. Any other character is `InvalidToken`, whitespace too, which is
    /// not skipped; the end of the text is `EOF`. Exactly the characters
    /// of the token are consumed, and the result is never `Ok(None)`.
    pub fn next(&mut self) -> (token: Result<Option<Token>, Error>)
        ensures
            final(self).input() == old(self).input(),
            0 <= old(self).position() <= final(self).position() <= final(self).input().len(),
            final(self).position() == scan_token(old(self).input(), old(self).position()).end,
            yields(token, scan_token(old(self).input(), old(self).position()).outcome),
            token matches Ok(Some(Token::Number(t))) ==> is_number(t@),
    {
        proof {
            use_type_invariant(&*self);
        }
        match self.peek() {
            Some((_, '{')) => {
                self.eat_one();
                Ok(Some(Token::LeftBrace))
            },
            Some((_, '}')) => {
                self.eat_one();
                Ok(Some(Token::RightBrace))
            },
            Some((_, '[')) => {
                self.eat_one();
                Ok(Some(Token::LeftBracket))
            },
            Some((_, ']')) => {
                self.eat_one();
                Ok(Some(Token::RightBracket))
            },
            Some((_, ',')) => {
                self.eat_one();
                Ok(Some(Token::Comma))
            },
            Some((_, ':')) => {
                self.eat_one();
                Ok(Some(Token::Colon))
            },
            Some((_, '"')) => self.string(),
            Some((_, c)) => {
                if digit(c) || c == '-' {
                    self.number()
                } else if c == 't' || c == 'f' {
                    self.boolean()
                } else if c == 'n' {
                    self.null()
                } else {
                    Err(Error::InvalidToken)
                }
            },
            None => Err(Error::EOF),
        }
    }

    /// Consumes the next character if `token` is structural and that
    /// character is its own; otherwise consumes nothing.
    pub fn eat_token(&mut self, token: Token) -> (eaten: bool)
        ensures
            final(self).input() == old(self).input(),
            eaten == match token@.structural_char() {
                Some(c) => char_at(old(self).input(), old(self).position(), c),
                None => false,
            },
            0 <= old(self).position() <= final(self).position() <= final(self).input().len(),
            final(self).position() == if eaten {
                old(self).position() + 1
            } else {
                old(self).position()
            },
    {
        proof {
            use_type_invariant(&*self);
        }
        match token.to_char() {
            Some(c) => self.eatc(c),
            _ => false,
        }
    }
}

} // verus!
