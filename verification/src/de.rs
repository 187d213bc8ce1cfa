//! The parser: from a text to a value tree.

use vstd::prelude::*;
use crate::grammar::{
    lemma_parse_value, lemma_value_nests, nests_within, parse_array, parse_elements,
    parse_members, parse_object, parse_value, Json,
};
use crate::number::{lemma_value_numbers, numbers_valid};
use crate::scan::{lemma_scan_token, lemma_skip_whitespace, skip_whitespace};
use crate::token::{Error, Token, Tokenizer};
use crate::value::{array_view, lemma_array_view_push};
pub use crate::value::{Object, Value};

verus! {

/// `result` is what a caller gets where the grammar's outcome is `outcome`:
/// a value with that view, or the same error.
pub open spec fn produces(result: Result<Option<Value>, Error>, outcome: Result<Json, Error>) -> bool {
    match outcome {
        Ok(json) => result matches Ok(Some(value)) && value@ == json,
        Err(e) => result == Err::<Option<Value>, Error>(e),
    }
}

/// How deep containers may nest in a text that is read: an array or an
/// object may stand inside another, that one inside a third, and so on up
/// to this many, the outermost counted. The limit bounds the depth of the
/// parser's recursion, and with it the stack it needs.
pub const MAX_DEPTH: usize = 128;

/// A recursive-descent parser over one text.
pub struct Deserializer {
    tokenizer: Tokenizer,
}

impl Deserializer {
    /// The whole text, consumed part included.
    pub closed spec fn input(&self) -> Seq<char> {
        self.tokenizer.input()
    }

    /// The number of characters consumed so far.
    pub closed spec fn position(&self) -> int {
        self.tokenizer.position()
    }

    /// A parser at the start of `input`.
    pub fn new(input: &str) -> (deserializer: Deserializer)
        ensures
            deserializer.input() == input@,
            deserializer.position() == 0,
    {
        Deserializer { tokenizer: Tokenizer::new(input) }
    }

    /// Reads one value from where the cursor stands and leaves the cursor
    /// after it. What follows the value is not looked at. On failure the
    /// first error met is returned, and no value. Containers may nest
    /// `MAX_DEPTH` deep; the bracket that would open one more is refused
    /// with `InvalidToken`, so that no value nests deeper. Every number in
    /// the value is a number of the JSON grammar.
    pub fn parse(&mut self) -> (result: Result<Option<Value>, Error>)
        ensures
            final(self).input() == old(self).input(),
            0 <= old(self).position() <= final(self).position() <= final(self).input().len(),
            final(self).position() == parse_value(
                old(self).input(),
                old(self).position(),
                MAX_DEPTH as nat,
            ).end,
            produces(
                result,
                parse_value(old(self).input(), old(self).position(), MAX_DEPTH as nat).outcome,
            ),
            result matches Ok(Some(value)) ==> numbers_valid(value@) && nests_within(
                value@,
                MAX_DEPTH as nat,
            ),
    {
        proof {
            use_type_invariant(&self.tokenizer);
            self.tokenizer.lemma_position_in_bounds();
            if parse_value(self.input(), self.position(), MAX_DEPTH as nat).outcome is Ok {
                lemma_value_numbers(self.input(), self.position(), MAX_DEPTH as nat);
                lemma_value_nests(self.input(), self.position(), MAX_DEPTH as nat);
            }
        }
        self.value(MAX_DEPTH)
    }

    /// Reads the value that starts after any whitespace. Containers may
    /// nest `depth` deep from here on.
    fn value(&mut self, depth: usize) -> (result: Result<Option<Value>, Error>)
        ensures
            final(self).input() == old(self).input(),
            0 <= old(self).position() <= final(self).position() <= final(self).input().len(),
            final(self).position() == parse_value(
                old(self).input(),
                old(self).position(),
                depth as nat,
            ).end,
            produces(
                result,
                parse_value(old(self).input(), old(self).position(), depth as nat).outcome,
            ),
        decreases old(self).input().len() - old(self).position(), 0int,
    {
        proof {
            use_type_invariant(&self.tokenizer);
            self.tokenizer.lemma_position_in_bounds();
            lemma_skip_whitespace(self.input(), self.position());
            lemma_scan_token(self.input(), skip_whitespace(self.input(), self.position()));
        }
        self.tokenizer.eat_whitespaces();
        match self.tokenizer.next() {
            Err(e) => Err(e),
            Ok(Some(Token::LeftBrace)) => {
                if depth == 0 {
                    Err(Error::InvalidToken)
                } else {
                    self.object(depth - 1)
                }
            },
            Ok(Some(Token::LeftBracket)) => {
                if depth == 0 {
                    Err(Error::InvalidToken)
                } else {
                    self.array(depth - 1)
                }
            },
            Ok(Some(Token::String(string))) => Ok(Some(Value::String(string))),
            Ok(Some(Token::Number(string))) => Ok(Some(Value::Number(string))),
            Ok(Some(Token::Bool(boolean))) => Ok(Some(Value::Bool(boolean))),
            Ok(Some(Token::Null)) => Ok(Some(Value::Null)),
            _ => Err(Error::InvalidToken),
        }
    }

    /// Reads the rest of an object, from after its `{`. Containers may nest
    /// `depth` deep inside it.
    fn object(&mut self, depth: usize) -> (result: Result<Option<Value>, Error>)
        ensures
            final(self).input() == old(self).input(),
            0 <= old(self).position() <= final(self).position() <= final(self).input().len(),
            final(self).position() == parse_object(
                old(self).input(),
                old(self).position(),
                depth as nat,
            ).end,
            produces(
                result,
                parse_object(old(self).input(), old(self).position(), depth as nat).outcome,
            ),
        decreases old(self).input().len() - old(self).position(), 2int,
    {
        proof {
            use_type_invariant(&self.tokenizer);
            self.tokenizer.lemma_position_in_bounds();
        }
        let mut object = Object::new();
        if self.tokenizer.eat_token(Token::RightBrace) {
            return Ok(Some(Value::Object(object)));
        }
        loop
            invariant
                self.input() == old(self).input(),
                0 <= old(self).position() <= self.position() <= self.input().len(),
                parse_object(old(self).input(), old(self).position(), depth as nat)
                    == parse_members(self.input(), self.position(), object@, depth as nat),
            decreases self.input().len() - self.position(),
        {
            let ghost text = self.input();
            let ghost start = self.position();
            proof {
                lemma_skip_whitespace(text, start);
                lemma_scan_token(text, skip_whitespace(text, start));
            }
            self.tokenizer.eat_whitespaces();
            match self.tokenizer.next() {
                Err(e) => {
                    return Err(e);
                },
                Ok(Some(Token::String(key))) => {
                    proof {
                        lemma_skip_whitespace(text, self.position());
                    }
                    self.tokenizer.eat_whitespaces();
                    if !self.tokenizer.eat_token(Token::Colon) {
                        return Err(Error::InvalidToken);
                    }
                    let ghost after_colon = self.position();
                    proof {
                        lemma_skip_whitespace(text, after_colon);
                        lemma_parse_value(text, after_colon, depth as nat);
                    }
                    self.tokenizer.eat_whitespaces();
                    match self.value(depth) {
                        Err(e) => {
                            return Err(e);
                        },
                        Ok(Some(value)) => {
                            object.insert(key, value);
                        },
                        Ok(None) => {
                            return Err(Error::InvalidToken);
                        },
                    }
                    proof {
                        lemma_skip_whitespace(text, self.position());
                    }
                    self.tokenizer.eat_whitespaces();
                    if self.tokenizer.eat_token(Token::RightBrace) {
                        return Ok(Some(Value::Object(object)));
                    }
                    if !self.tokenizer.eat_token(Token::Comma) {
                        return Err(Error::InvalidToken);
                    }
                },
                _ => {
                    return Err(Error::InvalidToken);
                },
            }
        }
    }

    /// Reads the rest of an array, from after its `[`. Containers may nest
    /// `depth` deep inside it.
    fn array(&mut self, depth: usize) -> (result: Result<Option<Value>, Error>)
        ensures
            final(self).input() == old(self).input(),
            0 <= old(self).position() <= final(self).position() <= final(self).input().len(),
            final(self).position() == parse_array(
                old(self).input(),
                old(self).position(),
                depth as nat,
            ).end,
            produces(
                result,
                parse_array(old(self).input(), old(self).position(), depth as nat).outcome,
            ),
        decreases old(self).input().len() - old(self).position(), 2int,
    {
        proof {
            use_type_invariant(&self.tokenizer);
            self.tokenizer.lemma_position_in_bounds();
            lemma_skip_whitespace(self.input(), self.position());
        }
        let mut array: Vec<Value> = Vec::new();
        self.tokenizer.eat_whitespaces();
        if self.tokenizer.eat_token(Token::RightBracket) {
            proof {
                assert(array_view(array@) == Seq::<Json>::empty());
            }
            return Ok(Some(Value::Array(array)));
        }
        proof {
            assert(array_view(array@) == Seq::<Json>::empty());
        }
        loop
            invariant
                self.input() == old(self).input(),
                0 <= old(self).position() <= self.position() <= self.input().len(),
                parse_array(old(self).input(), old(self).position(), depth as nat)
                    == parse_elements(
                    self.input(),
                    self.position(),
                    array_view(array@),
                    depth as nat,
                ),
            decreases self.input().len() - self.position(),
        {
            let ghost text = self.input();
            let ghost start = self.position();
            proof {
                lemma_skip_whitespace(text, start);
                lemma_parse_value(text, start, depth as nat);
            }
            self.tokenizer.eat_whitespaces();
            match self.value(depth) {
                Err(e) => {
                    return Err(e);
                },
                Ok(Some(value)) => {
                    proof {
                        lemma_array_view_push(array@, value);
                    }
                    array.push(value);
                },
                Ok(None) => {
                    return Err(Error::InvalidToken);
                },
            }
            proof {
                lemma_skip_whitespace(text, self.position());
            }
            self.tokenizer.eat_whitespaces();
            if self.tokenizer.eat_token(Token::RightBracket) {
                return Ok(Some(Value::Array(array)));
            }
            if !self.tokenizer.eat_token(Token::Comma) {
                return Err(Error::InvalidToken);
            }
        }
    }
}

} // verus!
