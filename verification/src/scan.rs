//! The lexical layer of the format, as mathematics.
//!
//! Each function here reads a text `s` from a position `pos` and says what
//! the tokenizer finds there and where its cursor comes to rest. Positions
//! count Unicode scalar values.

use vstd::prelude::*;
use crate::chars::{is_digit, is_whitespace, unescape};
use crate::token::Error;

verus! {

/// What a scanner finds: the value it read or the error it hit, and the
/// position at which the cursor stops in either case.
pub struct Scan<T> {
    pub outcome: Result<T, Error>,
    pub end: int,
}

/// A token as mathematics: payloads are character sequences.
pub enum TokenView {
    LeftBracket,
    RightBracket,
    LeftBrace,
    RightBrace,
    Comma,
    Colon,
    Number(Seq<char>),
    Integer(Seq<char>),
    Fraction(Seq<char>),
    Exponent(Seq<char>),
    String(Seq<char>),
    Bool(bool),
    Null,
}

impl TokenView {
    /// The single character of a structural token; `None` for the others.
    pub open spec fn structural_char(self) -> Option<char> {
        match self {
            TokenView::LeftBracket => Some('['),
            TokenView::RightBracket => Some(']'),
            TokenView::LeftBrace => Some('{'),
            TokenView::RightBrace => Some('}'),
            TokenView::Comma => Some(','),
            TokenView::Colon => Some(':'),
            _ => None,
        }
    }
}

/// The character `c` stands at `pos`.
pub open spec fn char_at(s: Seq<char>, pos: int, c: char) -> bool {
    0 <= pos < s.len() && s[pos] == c
}

/// A decimal digit stands at `pos`.
pub open spec fn digit_at(s: Seq<char>, pos: int) -> bool {
    0 <= pos < s.len() && is_digit(s[pos])
}

/// The text `t` stands at `pos`.
pub open spec fn text_at(s: Seq<char>, pos: int, t: Seq<char>) -> bool {
    0 <= pos && pos + t.len() <= s.len() && s.subrange(pos, pos + t.len()) == t
}

/// The position after the maximal run of whitespace that starts at `pos`.
pub open spec fn skip_whitespace(s: Seq<char>, pos: int) -> int
    decreases s.len() - pos,
{
    if 0 <= pos < s.len() && is_whitespace(s[pos]) {
        skip_whitespace(s, pos + 1)
    } else {
        pos
    }
}

/// The position after the maximal run of digits that starts at `pos`.
pub open spec fn digits_end(s: Seq<char>, pos: int) -> int
    decreases s.len() - pos,
{
    if digit_at(s, pos) {
        digits_end(s, pos + 1)
    } else {
        pos
    }
}

/// The literal `true`.
pub open spec fn true_text() -> Seq<char> {
    seq!['t', 'r', 'u', 'e']
}

/// The literal `false`.
pub open spec fn false_text() -> Seq<char> {
    seq!['f', 'a', 'l', 's', 'e']
}

/// The literal `null`.
pub open spec fn null_text() -> Seq<char> {
    seq!['n', 'u', 'l', 'l']
}

/// Puts `c` in front of what `rest` read.
pub open spec fn prepend(c: char, rest: Scan<Seq<char>>) -> Scan<Seq<char>> {
    Scan {
        outcome: match rest.outcome {
            Ok(t) => Ok(seq![c] + t),
            Err(e) => Err(e),
        },
        end: rest.end,
    }
}

/// The contents of a string from `pos`, the position after its opening
/// quote, up to the closing quote, with escape sequences resolved.
///
/// The text ending before the closing quote is `EOF`, also where it ends
/// right after a backslash; a backslash before a character that begins no
/// recognised escape is `InvalidEscapeChar`, with the cursor left on that
/// character.
pub open spec fn scan_string_body(s: Seq<char>, pos: int) -> Scan<Seq<char>>
    decreases s.len() - pos,
{
    if !(0 <= pos < s.len()) {
        Scan { outcome: Err(Error::EOF), end: pos }
    } else if s[pos] == '"' {
        Scan { outcome: Ok(Seq::empty()), end: pos + 1 }
    } else if s[pos] == '\\' {
        if pos + 1 >= s.len() {
            Scan { outcome: Err(Error::EOF), end: pos + 1 }
        } else {
            match unescape(s[pos + 1]) {
                Some(c) => prepend(c, scan_string_body(s, pos + 2)),
                None => Scan { outcome: Err(Error::InvalidEscapeChar), end: pos + 1 },
            }
        }
    } else {
        prepend(s[pos], scan_string_body(s, pos + 1))
    }
}

/// A quoted string at `pos`: `InvalidString` unless a quote stands there.
pub open spec fn scan_string(s: Seq<char>, pos: int) -> Scan<Seq<char>> {
    if char_at(s, pos, '"') {
        scan_string_body(s, pos + 1)
    } else {
        Scan { outcome: Err(Error::InvalidString), end: pos }
    }
}

/// The text between `from` and `to`, read successfully.
pub open spec fn read(s: Seq<char>, from: int, to: int) -> Scan<Seq<char>> {
    Scan { outcome: Ok(s.subrange(from, to)), end: to }
}

/// No number can be read; the cursor stops at `at`.
pub open spec fn bad_number(at: int) -> Scan<Seq<char>> {
    Scan { outcome: Err(Error::InvalidNumber), end: at }
}

/// The integer part of a number at `pos`: an optional minus sign, then
/// either a single `0` or a non-empty run of digits. After a leading `0`
/// the part ends at once, whatever follows.
pub open spec fn scan_integer(s: Seq<char>, pos: int) -> Scan<Seq<char>> {
    let digits = if char_at(s, pos, '-') {
        pos + 1
    } else {
        pos
    };
    if char_at(s, digits, '0') {
        read(s, pos, digits + 1)
    } else if digit_at(s, digits) {
        read(s, pos, digits_end(s, digits))
    } else {
        bad_number(digits)
    }
}

/// A non-empty run of digits at `pos`, as it follows a decimal point.
pub open spec fn scan_fraction(s: Seq<char>, pos: int) -> Scan<Seq<char>> {
    if digit_at(s, pos) {
        read(s, pos, digits_end(s, pos))
    } else {
        bad_number(pos)
    }
}

/// An exponent at `pos`, the position after its `e` or `E`: an optional
/// sign, then a non-empty run of digits.
pub open spec fn scan_exponent(s: Seq<char>, pos: int) -> Scan<Seq<char>> {
    let digits = if char_at(s, pos, '-') || char_at(s, pos, '+') {
        pos + 1
    } else {
        pos
    };
    if digit_at(s, digits) {
        read(s, pos, digits_end(s, digits))
    } else {
        bad_number(digits)
    }
}

/// The end of a number that began at `pos` and was read up to `mark`: if
/// `e` or `E` stands at `mark`, that letter and an exponent, else nothing.
pub open spec fn scan_number_end(s: Seq<char>, pos: int, mark: int) -> Scan<Seq<char>> {
    if char_at(s, mark, 'e') || char_at(s, mark, 'E') {
        let exponent = scan_exponent(s, mark + 1);
        if exponent.outcome is Err {
            bad_number(exponent.end)
        } else {
            read(s, pos, exponent.end)
        }
    } else {
        read(s, pos, mark)
    }
}

/// A number at `pos`: the integer part; then, if a decimal point follows,
/// the point and a fraction; then, if `e` or `E` follows, that letter and
/// an exponent. The number read is the text it spans, verbatim. Every
/// failure is `InvalidNumber`.
pub open spec fn scan_number(s: Seq<char>, pos: int) -> Scan<Seq<char>> {
    let integer = scan_integer(s, pos);
    if integer.outcome is Err {
        bad_number(integer.end)
    } else if char_at(s, integer.end, '.') {
        let fraction = scan_fraction(s, integer.end + 1);
        if fraction.outcome is Err {
            bad_number(fraction.end)
        } else {
            scan_number_end(s, pos, fraction.end)
        }
    } else {
        scan_number_end(s, pos, integer.end)
    }
}

/// The literal `true` or `false` at `pos`. Nothing is consumed on failure.
pub open spec fn scan_boolean(s: Seq<char>, pos: int) -> Scan<TokenView> {
    if text_at(s, pos, true_text()) {
        Scan { outcome: Ok(TokenView::Bool(true)), end: pos + 4 }
    } else if text_at(s, pos, false_text()) {
        Scan { outcome: Ok(TokenView::Bool(false)), end: pos + 5 }
    } else {
        Scan { outcome: Err(Error::InvalidToken), end: pos }
    }
}

/// The literal `null` at `pos`. Nothing is consumed on failure.
pub open spec fn scan_null(s: Seq<char>, pos: int) -> Scan<TokenView> {
    if text_at(s, pos, null_text()) {
        Scan { outcome: Ok(TokenView::Null), end: pos + 4 }
    } else {
        Scan { outcome: Err(Error::InvalidToken), end: pos }
    }
}

/// The structural token that the character `c` is, if any.
pub open spec fn structural(c: char) -> Option<TokenView> {
    if c == '{' {
        Some(TokenView::LeftBrace)
    } else if c == '}' {
        Some(TokenView::RightBrace)
    } else if c == '[' {
        Some(TokenView::LeftBracket)
    } else if c == ']' {
        Some(TokenView::RightBracket)
    } else if c == ',' {
        Some(TokenView::Comma)
    } else if c == ':' {
        Some(TokenView::Colon)
    } else {
        None
    }
}

/// The string token made of what `scan` read.
pub open spec fn string_token(scan: Scan<Seq<char>>) -> Scan<TokenView> {
    Scan {
        outcome: match scan.outcome {
            Ok(t) => Ok(TokenView::String(t)),
            Err(e) => Err(e),
        },
        end: scan.end,
    }
}

/// The number token made of what `scan` read.
pub open spec fn number_token(scan: Scan<Seq<char>>) -> Scan<TokenView> {
    Scan {
        outcome: match scan.outcome {
            Ok(t) => Ok(TokenView::Number(t)),
            Err(e) => Err(e),
        },
        end: scan.end,
    }
}

/// The token at `pos`, chosen by the character that stands there. No
/// whitespace is skipped, before or after.
pub open spec fn scan_token(s: Seq<char>, pos: int) -> Scan<TokenView> {
    if !(0 <= pos < s.len()) {
        Scan { outcome: Err(Error::EOF), end: pos }
    } else if structural(s[pos]) is Some {
        Scan { outcome: Ok(structural(s[pos])->0), end: pos + 1 }
    } else if s[pos] == '"' {
        string_token(scan_string(s, pos))
    } else if is_digit(s[pos]) || s[pos] == '-' {
        number_token(scan_number(s, pos))
    } else if s[pos] == 't' || s[pos] == 'f' {
        scan_boolean(s, pos)
    } else if s[pos] == 'n' {
        scan_null(s, pos)
    } else {
        Scan { outcome: Err(Error::InvalidToken), end: pos }
    }
}

/// Skipping whitespace moves forward, stays inside the text, and stops at
/// the first character that is not whitespace; skipping again from there
/// changes nothing.
pub proof fn lemma_skip_whitespace(s: Seq<char>, pos: int)
    requires
        0 <= pos <= s.len(),
    ensures
        pos <= skip_whitespace(s, pos) <= s.len(),
        skip_whitespace(s, pos) < s.len() ==> !is_whitespace(s[skip_whitespace(s, pos)]),
        skip_whitespace(s, skip_whitespace(s, pos)) == skip_whitespace(s, pos),
    decreases s.len() - pos,
{
    if pos < s.len() && is_whitespace(s[pos]) {
        lemma_skip_whitespace(s, pos + 1);
    }
}

/// Skipping whitespace passes over whitespace only.
pub proof fn lemma_skipped_is_whitespace(s: Seq<char>, pos: int)
    requires
        0 <= pos <= s.len(),
    ensures
        forall|i: int| pos <= i < skip_whitespace(s, pos) ==> is_whitespace(#[trigger] s[i]),
    decreases s.len() - pos,
{
    if pos < s.len() && is_whitespace(s[pos]) {
        lemma_skipped_is_whitespace(s, pos + 1);
    }
}

/// A run of digits stays inside the text, holds digits only, and stops at
/// the first character that is not a digit.
pub proof fn lemma_digits_end(s: Seq<char>, pos: int)
    requires
        0 <= pos <= s.len(),
    ensures
        pos <= digits_end(s, pos) <= s.len(),
        forall|i: int| pos <= i < digits_end(s, pos) ==> is_digit(#[trigger] s[i]),
        !digit_at(s, digits_end(s, pos)),
    decreases s.len() - pos,
{
    if digit_at(s, pos) {
        lemma_digits_end(s, pos + 1);
    }
}

/// Reading a string body stays inside the text; where it succeeds it has
/// consumed the closing quote.
pub proof fn lemma_scan_string_body(s: Seq<char>, pos: int)
    requires
        0 <= pos <= s.len(),
    ensures
        pos <= scan_string_body(s, pos).end <= s.len(),
        scan_string_body(s, pos).outcome is Ok ==> pos < scan_string_body(s, pos).end,
        scan_string_body(s, pos).outcome is Ok ==> s[scan_string_body(s, pos).end - 1] == '"',
    decreases s.len() - pos,
{
    if pos < s.len() && s[pos] != '"' {
        if s[pos] == '\\' {
            if pos + 1 < s.len() && unescape(s[pos + 1]) is Some {
                lemma_scan_string_body(s, pos + 2);
            }
        } else {
            lemma_scan_string_body(s, pos + 1);
        }
    }
}

/// Reading a number stays inside the text; where it succeeds it has
/// consumed at least one digit.
pub proof fn lemma_scan_number(s: Seq<char>, pos: int)
    requires
        0 <= pos <= s.len(),
    ensures
        pos <= scan_number(s, pos).end <= s.len(),
        scan_number(s, pos).outcome is Ok ==> pos < scan_number(s, pos).end,
        scan_number(s, pos).outcome is Ok ==> scan_number(s, pos).outcome->Ok_0 == s.subrange(
            pos,
            scan_number(s, pos).end,
        ),
        scan_number(s, pos).outcome is Err ==> scan_number(s, pos).outcome
            == Err::<Seq<char>, Error>(Error::InvalidNumber),
{
    let digits = if char_at(s, pos, '-') {
        pos + 1
    } else {
        pos
    };
    if digits <= s.len() {
        lemma_digits_end(s, digits);
    }
    let integer = scan_integer(s, pos);
    if integer.outcome is Ok {
        let mark = if char_at(s, integer.end, '.') {
            lemma_digits_end(s, integer.end + 1);
            scan_fraction(s, integer.end + 1).end
        } else {
            integer.end
        };
        if char_at(s, mark, 'e') || char_at(s, mark, 'E') {
            let sign = mark + 1;
            let exponent_digits = if char_at(s, sign, '-') || char_at(s, sign, '+') {
                sign + 1
            } else {
                sign
            };
            if exponent_digits <= s.len() {
                lemma_digits_end(s, exponent_digits);
            }
        }
    }
}

/// Reading a token stays inside the text; where it succeeds it has
/// consumed at least one character.
pub proof fn lemma_scan_token(s: Seq<char>, pos: int)
    requires
        0 <= pos <= s.len(),
    ensures
        pos <= scan_token(s, pos).end <= s.len(),
        scan_token(s, pos).outcome is Ok ==> pos < scan_token(s, pos).end,
{
    if pos < s.len() {
        lemma_scan_string_body(s, pos + 1);
        lemma_scan_number(s, pos);
    }
}

} // verus!
