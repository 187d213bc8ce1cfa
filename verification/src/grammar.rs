//! The value grammar, as mathematics: what a text denotes.

use vstd::prelude::*;
use crate::scan::{
    char_at, lemma_scan_token, lemma_skip_whitespace, scan_token, skip_whitespace, Scan,
    TokenView,
};
use crate::token::Error;

verus! {

/// A value tree as mathematics. An object is a map from keys to values; a
/// number is its literal text.
pub enum Json {
    Object(Map<Seq<char>, Json>),
    Array(Seq<Json>),
    String(Seq<char>),
    Number(Seq<char>),
    Bool(bool),
    Null,
}

/// The value `v` was read, and the cursor stands at `end`.
pub open spec fn done(v: Json, end: int) -> Scan<Json> {
    Scan { outcome: Ok(v), end }
}

/// Reading failed with `e`, and the cursor stands at `end`.
pub open spec fn failed(e: Error, end: int) -> Scan<Json> {
    Scan { outcome: Err(e), end }
}

/// The value that starts at `pos`, after any whitespace, where containers
/// may nest `depth` deep from here on: an object after `{`, an array after
/// `[`, or the scalar that the token there is. A structural token other
/// than these two is `InvalidToken`, and so is one of these two where
/// `depth` is used up; a token that cannot be read fails with its own
/// error.
pub open spec fn parse_value(s: Seq<char>, pos: int, depth: nat) -> Scan<Json>
    decreases s.len() - pos, 0int,
    via parse_value_decreases
{
    let token = scan_token(s, skip_whitespace(s, pos));
    match token.outcome {
        Ok(TokenView::LeftBrace) => if depth == 0 {
            failed(Error::InvalidToken, token.end)
        } else {
            parse_object(s, token.end, (depth - 1) as nat)
        },
        Ok(TokenView::LeftBracket) => if depth == 0 {
            failed(Error::InvalidToken, token.end)
        } else {
            parse_array(s, token.end, (depth - 1) as nat)
        },
        Ok(TokenView::String(t)) => done(Json::String(t), token.end),
        Ok(TokenView::Number(t)) => done(Json::Number(t), token.end),
        Ok(TokenView::Bool(b)) => done(Json::Bool(b), token.end),
        Ok(TokenView::Null) => done(Json::Null, token.end),
        Ok(_) => failed(Error::InvalidToken, token.end),
        Err(e) => failed(e, token.end),
    }
}

#[via_fn]
proof fn parse_value_decreases(s: Seq<char>, pos: int, depth: nat) {
    if 0 <= pos <= s.len() {
        lemma_skip_whitespace(s, pos);
        lemma_scan_token(s, skip_whitespace(s, pos));
    }
}

/// The rest of an array from `pos`, the position after its `[`: empty if
/// `]` follows the whitespace there, else the elements.
pub open spec fn parse_array(s: Seq<char>, pos: int, depth: nat) -> Scan<Json>
    decreases s.len() - pos, 2int,
    via parse_array_decreases
{
    let first = skip_whitespace(s, pos);
    if char_at(s, first, ']') {
        done(Json::Array(Seq::empty()), first + 1)
    } else {
        parse_elements(s, first, Seq::empty(), depth)
    }
}

#[via_fn]
proof fn parse_array_decreases(s: Seq<char>, pos: int, depth: nat) {
    if 0 <= pos <= s.len() {
        lemma_skip_whitespace(s, pos);
    }
}

/// The elements of an array from `pos` on, after `items` were read: a
/// value, then whitespace, then `]`, which ends the array, or `,` and
/// further elements. Anything else in that place is `InvalidToken`.
pub open spec fn parse_elements(s: Seq<char>, pos: int, items: Seq<Json>, depth: nat) -> Scan<
    Json,
>
    decreases s.len() - pos, 1int,
{
    let element = parse_value(s, pos, depth);
    match element.outcome {
        Err(e) => failed(e, element.end),
        Ok(v) => {
            let next = skip_whitespace(s, element.end);
            if char_at(s, next, ']') {
                done(Json::Array(items.push(v)), next + 1)
            } else if char_at(s, next, ',') && pos <= next {
                parse_elements(s, next + 1, items.push(v), depth)
            } else {
                failed(Error::InvalidToken, next)
            }
        },
    }
}

/// The rest of an object from `pos`, the position after its `{`: empty if
/// `}` stands right there, with no whitespace before it, else the members.
pub open spec fn parse_object(s: Seq<char>, pos: int, depth: nat) -> Scan<Json>
    decreases s.len() - pos, 2int,
{
    if char_at(s, pos, '}') {
        done(Json::Object(Map::empty()), pos + 1)
    } else {
        parse_members(s, pos, Map::empty(), depth)
    }
}

/// The members of an object from `pos` on, after `members` were read:
/// whitespace, a string as the key, whitespace, `:`, a value, whitespace,
/// then `}`, which ends the object, or `,` and further members. A later
/// member replaces an earlier one with the same key. A key that cannot be
/// read fails with its own error, and so does the value; any other token
/// in the place of the key, and anything else in the place of `:`, `}` or
/// `,`, is `InvalidToken`.
pub open spec fn parse_members(
    s: Seq<char>,
    pos: int,
    members: Map<Seq<char>, Json>,
    depth: nat,
) -> Scan<Json>
    decreases s.len() - pos, 1int,
    via parse_members_decreases
{
    let key = scan_token(s, skip_whitespace(s, pos));
    match key.outcome {
        Err(e) => failed(e, key.end),
        Ok(TokenView::String(name)) => {
            let colon = skip_whitespace(s, key.end);
            if !char_at(s, colon, ':') {
                failed(Error::InvalidToken, colon)
            } else {
                let member = parse_value(s, colon + 1, depth);
                match member.outcome {
                    Err(e) => failed(e, member.end),
                    Ok(v) => {
                        let next = skip_whitespace(s, member.end);
                        if char_at(s, next, '}') {
                            done(Json::Object(members.insert(name, v)), next + 1)
                        } else if char_at(s, next, ',') && pos <= next {
                            parse_members(s, next + 1, members.insert(name, v), depth)
                        } else {
                            failed(Error::InvalidToken, next)
                        }
                    },
                }
            }
        },
        Ok(_) => failed(Error::InvalidToken, key.end),
    }
}

#[via_fn]
proof fn parse_members_decreases(
    s: Seq<char>,
    pos: int,
    members: Map<Seq<char>, Json>,
    depth: nat,
) {
    if 0 <= pos <= s.len() {
        lemma_skip_whitespace(s, pos);
        let key = scan_token(s, skip_whitespace(s, pos));
        lemma_scan_token(s, skip_whitespace(s, pos));
        lemma_skip_whitespace(s, key.end);
    }
}

/// Reading a value stays inside the text, and a value that was read spans
/// at least one character.
pub proof fn lemma_parse_value(s: Seq<char>, pos: int, depth: nat)
    requires
        0 <= pos <= s.len(),
    ensures
        pos <= parse_value(s, pos, depth).end <= s.len(),
        parse_value(s, pos, depth).outcome is Ok ==> pos < parse_value(s, pos, depth).end,
    decreases s.len() - pos, 0int,
{
    lemma_skip_whitespace(s, pos);
    let token = scan_token(s, skip_whitespace(s, pos));
    lemma_scan_token(s, skip_whitespace(s, pos));
    match token.outcome {
        Ok(TokenView::LeftBrace) => if depth > 0 {
            lemma_parse_object(s, token.end, (depth - 1) as nat);
        },
        Ok(TokenView::LeftBracket) => if depth > 0 {
            lemma_parse_array(s, token.end, (depth - 1) as nat);
        },
        _ => {},
    }
}

/// Reading the rest of an array stays inside the text and moves forward.
pub proof fn lemma_parse_array(s: Seq<char>, pos: int, depth: nat)
    requires
        0 <= pos <= s.len(),
    ensures
        pos <= parse_array(s, pos, depth).end <= s.len(),
        parse_array(s, pos, depth).outcome is Ok ==> pos < parse_array(s, pos, depth).end,
    decreases s.len() - pos, 2int,
{
    lemma_skip_whitespace(s, pos);
    let first = skip_whitespace(s, pos);
    if !char_at(s, first, ']') {
        lemma_parse_elements(s, first, Seq::empty(), depth);
    }
}

/// Reading the elements of an array stays inside the text and moves forward.
pub proof fn lemma_parse_elements(s: Seq<char>, pos: int, items: Seq<Json>, depth: nat)
    requires
        0 <= pos <= s.len(),
    ensures
        pos <= parse_elements(s, pos, items, depth).end <= s.len(),
        parse_elements(s, pos, items, depth).outcome is Ok ==> pos < parse_elements(
            s,
            pos,
            items,
            depth,
        ).end,
    decreases s.len() - pos, 1int,
{
    lemma_parse_value(s, pos, depth);
    let element = parse_value(s, pos, depth);
    if let Ok(v) = element.outcome {
        lemma_skip_whitespace(s, element.end);
        let next = skip_whitespace(s, element.end);
        if !char_at(s, next, ']') && char_at(s, next, ',') {
            lemma_parse_elements(s, next + 1, items.push(v), depth);
        }
    }
}

/// Reading the rest of an object stays inside the text and moves forward.
pub proof fn lemma_parse_object(s: Seq<char>, pos: int, depth: nat)
    requires
        0 <= pos <= s.len(),
    ensures
        pos <= parse_object(s, pos, depth).end <= s.len(),
        parse_object(s, pos, depth).outcome is Ok ==> pos < parse_object(s, pos, depth).end,
    decreases s.len() - pos, 2int,
{
    if !char_at(s, pos, '}') {
        lemma_parse_members(s, pos, Map::empty(), depth);
    }
}

/// Reading the members of an object stays inside the text and moves forward.
pub proof fn lemma_parse_members(
    s: Seq<char>,
    pos: int,
    members: Map<Seq<char>, Json>,
    depth: nat,
)
    requires
        0 <= pos <= s.len(),
    ensures
        pos <= parse_members(s, pos, members, depth).end <= s.len(),
        parse_members(s, pos, members, depth).outcome is Ok ==> pos < parse_members(
            s,
            pos,
            members,
            depth,
        ).end,
    decreases s.len() - pos, 1int,
{
    lemma_skip_whitespace(s, pos);
    let key = scan_token(s, skip_whitespace(s, pos));
    lemma_scan_token(s, skip_whitespace(s, pos));
    if let Ok(TokenView::String(name)) = key.outcome {
        lemma_skip_whitespace(s, key.end);
        let colon = skip_whitespace(s, key.end);
        if char_at(s, colon, ':') {
            lemma_parse_value(s, colon + 1, depth);
            let member = parse_value(s, colon + 1, depth);
            if let Ok(v) = member.outcome {
                lemma_skip_whitespace(s, member.end);
                let next = skip_whitespace(s, member.end);
                if !char_at(s, next, '}') && char_at(s, next, ',') {
                    lemma_parse_members(s, next + 1, members.insert(name, v), depth);
                }
            }
        }
    }
}

/// Containers nest at most `depth` deep in the tree `v`, `v` itself
/// counted if it is one.
pub open spec fn nests_within(v: Json, depth: nat) -> bool
    decreases v,
{
    match v {
        Json::Object(members) => depth > 0 && members_nest_within(members, (depth - 1) as nat),
        Json::Array(items) => depth > 0 && items_nest_within(items, (depth - 1) as nat),
        _ => true,
    }
}

/// Containers nest at most `depth` deep in each of `items`.
pub open spec fn items_nest_within(items: Seq<Json>, depth: nat) -> bool
    decreases items,
{
    forall|i: int| 0 <= i < items.len() ==> nests_within(#[trigger] items[i], depth)
}

/// The map `members` is finite, and containers nest at most `depth` deep
/// in each of its values.
pub open spec fn members_nest_within(members: Map<Seq<char>, Json>, depth: nat) -> bool
    decreases members,
{
    members.dom().finite() && forall|k: Seq<char>|
        members.contains_key(k) ==> nests_within(#[trigger] members[k], depth)
}

/// A value read where containers may nest `depth` deep nests no deeper.
pub proof fn lemma_value_nests(s: Seq<char>, pos: int, depth: nat)
    requires
        0 <= pos <= s.len(),
        parse_value(s, pos, depth).outcome is Ok,
    ensures
        nests_within(parse_value(s, pos, depth).outcome->Ok_0, depth),
    decreases s.len() - pos, 0int,
{
    lemma_skip_whitespace(s, pos);
    let start = skip_whitespace(s, pos);
    lemma_scan_token(s, start);
    let token = scan_token(s, start);
    match token.outcome {
        Ok(TokenView::LeftBrace) => {
            if !char_at(s, token.end, '}') {
                lemma_members_nest(s, token.end, Map::empty(), (depth - 1) as nat);
            }
        },
        Ok(TokenView::LeftBracket) => {
            lemma_skip_whitespace(s, token.end);
            let first = skip_whitespace(s, token.end);
            if !char_at(s, first, ']') {
                lemma_elements_nest(s, first, Seq::empty(), (depth - 1) as nat);
            }
        },
        _ => {},
    }
}

/// The same of the elements of an array.
proof fn lemma_elements_nest(s: Seq<char>, pos: int, items: Seq<Json>, depth: nat)
    requires
        0 <= pos <= s.len(),
        parse_elements(s, pos, items, depth).outcome is Ok,
        items_nest_within(items, depth),
    ensures
        nests_within(parse_elements(s, pos, items, depth).outcome->Ok_0, depth + 1),
    decreases s.len() - pos, 1int,
{
    lemma_parse_value(s, pos, depth);
    lemma_value_nests(s, pos, depth);
    let element = parse_value(s, pos, depth);
    let v = element.outcome->Ok_0;
    lemma_skip_whitespace(s, element.end);
    let next = skip_whitespace(s, element.end);
    let more = items.push(v);
    assert(items_nest_within(more, depth)) by {
        assert forall|i: int| 0 <= i < more.len() implies nests_within(
            #[trigger] more[i],
            depth,
        ) by {
            if i < items.len() {
                assert(more[i] == items[i]);
            }
        }
    }
    if !char_at(s, next, ']') {
        lemma_elements_nest(s, next + 1, more, depth);
    }
}

/// The same of the members of an object.
proof fn lemma_members_nest(s: Seq<char>, pos: int, members: Map<Seq<char>, Json>, depth: nat)
    requires
        0 <= pos <= s.len(),
        parse_members(s, pos, members, depth).outcome is Ok,
        members_nest_within(members, depth),
    ensures
        nests_within(parse_members(s, pos, members, depth).outcome->Ok_0, depth + 1),
    decreases s.len() - pos, 1int,
{
    lemma_skip_whitespace(s, pos);
    let key = scan_token(s, skip_whitespace(s, pos));
    lemma_scan_token(s, skip_whitespace(s, pos));
    lemma_skip_whitespace(s, key.end);
    let colon = skip_whitespace(s, key.end);
    lemma_parse_value(s, colon + 1, depth);
    lemma_value_nests(s, colon + 1, depth);
    let member = parse_value(s, colon + 1, depth);
    let name = key.outcome->Ok_0->String_0;
    let v = member.outcome->Ok_0;
    lemma_skip_whitespace(s, member.end);
    let next = skip_whitespace(s, member.end);
    let more = members.insert(name, v);
    assert(members_nest_within(more, depth)) by {
        assert forall|k: Seq<char>| more.contains_key(k) implies nests_within(
            #[trigger] more[k],
            depth,
        ) by {
            if k != name {
                assert(more[k] == members[k]);
            }
        }
    }
    if !char_at(s, next, '}') {
        lemma_members_nest(s, next + 1, more, depth);
    }
}

} // verus!
