//! The grammar of numbers, stated on its own, and the proof that the
//! tokenizer reads nothing else as a number.

use vstd::prelude::*;
use crate::chars::is_digit;
use crate::grammar::{lemma_parse_value, parse_elements, parse_members, parse_value, Json};
use crate::scan::{
    char_at, digits_end, lemma_digits_end, lemma_scan_token, lemma_skip_whitespace,
    scan_exponent, scan_fraction, scan_integer, scan_number, scan_token, skip_whitespace,
    TokenView,
};

verus! {

/// Every character of `t` is a digit.
pub open spec fn all_digits(t: Seq<char>) -> bool {
    forall|i: int| 0 <= i < t.len() ==> is_digit(#[trigger] t[i])
}

/// `t` without its first character if that is one of `signs`.
pub open spec fn unsigned(t: Seq<char>, signs: Seq<char>) -> Seq<char> {
    if t.len() > 0 && signs.contains(t[0]) {
        t.drop_first()
    } else {
        t
    }
}

/// An optional minus sign, then `0` alone or digits that do not begin
/// with `0`.
pub open spec fn is_integer_part(t: Seq<char>) -> bool {
    let digits = unsigned(t, seq!['-']);
    digits.len() > 0 && all_digits(digits) && (digits[0] == '0' ==> digits.len() == 1)
}

/// Nothing, or a decimal point and at least one digit.
pub open spec fn is_fraction_part(t: Seq<char>) -> bool {
    t.len() == 0 || (t[0] == '.' && t.len() >= 2 && all_digits(t.drop_first()))
}

/// Nothing, or `e` or `E`, an optional sign and at least one digit.
pub open spec fn is_exponent_part(t: Seq<char>) -> bool {
    t.len() == 0 || ((t[0] == 'e' || t[0] == 'E') && {
        let digits = unsigned(t.drop_first(), seq!['-', '+']);
        digits.len() > 0 && all_digits(digits)
    })
}

/// `t` is a number of the JSON grammar, cut at `dot` and `exp` into its
/// integer part, its fraction and its exponent.
pub open spec fn is_number_cut(t: Seq<char>, dot: int, exp: int) -> bool {
    &&& 0 <= dot <= exp <= t.len()
    &&& is_integer_part(t.subrange(0, dot))
    &&& is_fraction_part(t.subrange(dot, exp))
    &&& is_exponent_part(t.subrange(exp, t.len() as int))
}

/// `t` is a number of the JSON grammar.
pub open spec fn is_number(t: Seq<char>) -> bool {
    exists|dot: int, exp: int| is_number_cut(t, dot, exp)
}

/// A run of digits, as text, is digits only.
proof fn lemma_digits_text(s: Seq<char>, from: int)
    requires
        0 <= from <= s.len(),
    ensures
        all_digits(s.subrange(from, digits_end(s, from))),
{
    lemma_digits_end(s, from);
}

/// The integer part that the tokenizer reads is one of the grammar.
proof fn lemma_integer_part(s: Seq<char>, pos: int)
    requires
        0 <= pos <= s.len(),
        scan_integer(s, pos).outcome is Ok,
    ensures
        is_integer_part(s.subrange(pos, scan_integer(s, pos).end)),
        pos < scan_integer(s, pos).end <= s.len(),
{
    let end = scan_integer(s, pos).end;
    let t = s.subrange(pos, end);
    let from = if char_at(s, pos, '-') {
        pos + 1
    } else {
        pos
    };
    lemma_digits_end(s, from);
    lemma_digits_text(s, from);
    assert(seq!['-'].contains('-')) by {
        assert(seq!['-'][0] == '-');
    }
    assert(t[0] == s[pos]);
    assert(unsigned(t, seq!['-']) =~= s.subrange(from, end));
    assert(s.subrange(from, end)[0] == s[from]);
}

/// The digits behind a decimal point make a fraction of the grammar.
proof fn lemma_fraction_part(s: Seq<char>, dot: int)
    requires
        char_at(s, dot, '.'),
        scan_fraction(s, dot + 1).outcome is Ok,
    ensures
        is_fraction_part(s.subrange(dot, scan_fraction(s, dot + 1).end)),
        dot + 1 < scan_fraction(s, dot + 1).end <= s.len(),
{
    let end = scan_fraction(s, dot + 1).end;
    let t = s.subrange(dot, end);
    lemma_digits_end(s, dot + 1);
    lemma_digits_text(s, dot + 1);
    assert(t[0] == s[dot]);
    assert(t.drop_first() =~= s.subrange(dot + 1, end));
}

/// What follows `e` or `E` makes an exponent of the grammar.
proof fn lemma_exponent_part(s: Seq<char>, mark: int)
    requires
        char_at(s, mark, 'e') || char_at(s, mark, 'E'),
        scan_exponent(s, mark + 1).outcome is Ok,
    ensures
        is_exponent_part(s.subrange(mark, scan_exponent(s, mark + 1).end)),
        mark + 1 < scan_exponent(s, mark + 1).end <= s.len(),
{
    let end = scan_exponent(s, mark + 1).end;
    let t = s.subrange(mark, end);
    let from = if char_at(s, mark + 1, '-') || char_at(s, mark + 1, '+') {
        mark + 2
    } else {
        mark + 1
    };
    lemma_digits_end(s, from);
    lemma_digits_text(s, from);
    let signs = seq!['-', '+'];
    assert(signs.contains('-')) by {
        assert(signs[0] == '-');
    }
    assert(signs.contains('+')) by {
        assert(signs[1] == '+');
    }
    assert(t[0] == s[mark]);
    let rest = t.drop_first();
    assert(rest =~= s.subrange(mark + 1, end));
    assert(rest[0] == s[mark + 1]);
    assert(unsigned(rest, signs) =~= s.subrange(from, end)) by {
        if !(char_at(s, mark + 1, '-') || char_at(s, mark + 1, '+')) {
            assert(!signs.contains(rest[0]));
        }
    }
    assert(s.subrange(from, end).len() > 0);
}

/// Whatever the tokenizer reads as a number is a number of the JSON
/// grammar: an optional minus sign; an integer part that is `0` or does
/// not begin with `0`; optionally a decimal point and digits; optionally
/// an exponent.
pub proof fn lemma_number_grammar(s: Seq<char>, pos: int)
    requires
        0 <= pos <= s.len(),
        scan_number(s, pos).outcome is Ok,
    ensures
        is_number(scan_number(s, pos).outcome->Ok_0),
{
    let integer = scan_integer(s, pos);
    lemma_integer_part(s, pos);
    let dot = integer.end;
    let mark = if char_at(s, dot, '.') {
        lemma_fraction_part(s, dot);
        scan_fraction(s, dot + 1).end
    } else {
        dot
    };
    let end = if char_at(s, mark, 'e') || char_at(s, mark, 'E') {
        lemma_exponent_part(s, mark);
        scan_exponent(s, mark + 1).end
    } else {
        mark
    };
    let t = s.subrange(pos, end);
    assert(t.subrange(0, dot - pos) =~= s.subrange(pos, dot));
    assert(t.subrange(dot - pos, mark - pos) =~= s.subrange(dot, mark));
    assert(t.subrange(mark - pos, end - pos) =~= s.subrange(mark, end));
    assert(is_number_cut(t, dot - pos, mark - pos));
}

/// Every number in the tree `v` is a number of the JSON grammar.
pub open spec fn numbers_valid(v: Json) -> bool
    decreases v,
{
    match v {
        Json::Object(members) => members_valid(members),
        Json::Array(items) => items_valid(items),
        Json::Number(t) => is_number(t),
        _ => true,
    }
}

/// Every number in every one of `items` is a number of the JSON grammar.
pub open spec fn items_valid(items: Seq<Json>) -> bool
    decreases items,
{
    forall|i: int| 0 <= i < items.len() ==> numbers_valid(#[trigger] items[i])
}

/// The map `members` is finite, and every number in every one of its
/// values is a number of the JSON grammar.
pub open spec fn members_valid(members: Map<Seq<char>, Json>) -> bool
    decreases members,
{
    members.dom().finite() && forall|k: Seq<char>|
        members.contains_key(k) ==> numbers_valid(#[trigger] members[k])
}

/// Every number in a value that was read is a number of the JSON grammar.
pub proof fn lemma_value_numbers(s: Seq<char>, pos: int, depth: nat)
    requires
        0 <= pos <= s.len(),
        parse_value(s, pos, depth).outcome is Ok,
    ensures
        numbers_valid(parse_value(s, pos, depth).outcome->Ok_0),
    decreases s.len() - pos, 0int,
{
    lemma_skip_whitespace(s, pos);
    let start = skip_whitespace(s, pos);
    lemma_scan_token(s, start);
    let token = scan_token(s, start);
    match token.outcome {
        Ok(TokenView::LeftBrace) => {
            if !char_at(s, token.end, '}') {
                lemma_members_numbers(s, token.end, Map::empty(), (depth - 1) as nat);
            }
        },
        Ok(TokenView::LeftBracket) => {
            lemma_skip_whitespace(s, token.end);
            let first = skip_whitespace(s, token.end);
            if !char_at(s, first, ']') {
                lemma_elements_numbers(s, first, Seq::empty(), (depth - 1) as nat);
            }
        },
        Ok(TokenView::Number(t)) => {
            lemma_number_grammar(s, start);
        },
        _ => {},
    }
}

/// The same of the elements of an array.
proof fn lemma_elements_numbers(s: Seq<char>, pos: int, items: Seq<Json>, depth: nat)
    requires
        0 <= pos <= s.len(),
        parse_elements(s, pos, items, depth).outcome is Ok,
        numbers_valid(Json::Array(items)),
    ensures
        numbers_valid(parse_elements(s, pos, items, depth).outcome->Ok_0),
    decreases s.len() - pos, 1int,
{
    lemma_parse_value(s, pos, depth);
    lemma_value_numbers(s, pos, depth);
    let element = parse_value(s, pos, depth);
    let v = element.outcome->Ok_0;
    lemma_skip_whitespace(s, element.end);
    let next = skip_whitespace(s, element.end);
    let more = items.push(v);
    assert(numbers_valid(Json::Array(more))) by {
        assert forall|i: int| 0 <= i < more.len() implies numbers_valid(#[trigger] more[i]) by {
            if i < items.len() {
                assert(more[i] == items[i]);
            }
        }
    }
    if !char_at(s, next, ']') {
        lemma_elements_numbers(s, next + 1, more, depth);
    }
}

/// The same of the members of an object.
proof fn lemma_members_numbers(
    s: Seq<char>,
    pos: int,
    members: Map<Seq<char>, Json>,
    depth: nat,
)
    requires
        0 <= pos <= s.len(),
        parse_members(s, pos, members, depth).outcome is Ok,
        numbers_valid(Json::Object(members)),
    ensures
        numbers_valid(parse_members(s, pos, members, depth).outcome->Ok_0),
    decreases s.len() - pos, 1int,
{
    lemma_skip_whitespace(s, pos);
    let key = scan_token(s, skip_whitespace(s, pos));
    lemma_scan_token(s, skip_whitespace(s, pos));
    lemma_skip_whitespace(s, key.end);
    let colon = skip_whitespace(s, key.end);
    lemma_parse_value(s, colon + 1, depth);
    lemma_value_numbers(s, colon + 1, depth);
    let member = parse_value(s, colon + 1, depth);
    let name = key.outcome->Ok_0->String_0;
    let v = member.outcome->Ok_0;
    lemma_skip_whitespace(s, member.end);
    let next = skip_whitespace(s, member.end);
    let more = members.insert(name, v);
    assert(numbers_valid(Json::Object(more))) by {
        assert forall|k: Seq<char>| more.contains_key(k) implies numbers_valid(
            #[trigger] more[k],
        ) by {
            if k != name {
                assert(more[k] == members[k]);
            }
        }
    }
    if !char_at(s, next, '}') {
        lemma_members_numbers(s, next + 1, more, depth);
    }
}

} // verus!
