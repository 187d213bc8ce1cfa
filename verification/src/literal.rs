//! The structure of a literal, and the value it denotes: reading a text
//! whose tokens spell a literal gives the value of that shape.

use vstd::prelude::*;
use crate::chars::is_whitespace;
use crate::grammar::{
    done, lemma_parse_value, parse_elements, parse_members, parse_value, Json,
};
use crate::scan::{scan_token, structural, TokenView};
use crate::spacing::{
    blank, layout_of, lemma_layout_of, lemma_skip_gap, lemma_token_bounds, spaced, spacing,
    Layout,
};
use crate::token::Error;

verus! {

/// A literal as written: like the value it denotes, but with the members
/// of an object in the order in which they stand, a key as often as it
/// is written.
pub enum Literal {
    Object(Seq<(Seq<char>, Literal)>),
    Array(Seq<Literal>),
    String(Seq<char>),
    Number(Seq<char>),
    Bool(bool),
    Null,
}

/// The value that a literal denotes: arrays element for element, objects
/// member for member, a later member replacing an earlier one of its key.
pub open spec fn denoted(l: Literal) -> Json
    decreases l, 0int,
{
    match l {
        Literal::Object(members) => Json::Object(denoted_members(members, members.len() as int)),
        Literal::Array(items) => Json::Array(denoted_items(items, items.len() as int)),
        Literal::String(t) => Json::String(t),
        Literal::Number(t) => Json::Number(t),
        Literal::Bool(b) => Json::Bool(b),
        Literal::Null => Json::Null,
    }
}

/// The values that the first `m` of `items` denote.
pub open spec fn denoted_items(items: Seq<Literal>, m: int) -> Seq<Json>
    decreases items, 0int,
{
    Seq::new(
        m as nat,
        |k: int|
            if 0 <= k < items.len() {
                denoted(items[k])
            } else {
                Json::Null
            },
    )
}

/// The map that the first `m` of `members` denote.
pub open spec fn denoted_members(members: Seq<(Seq<char>, Literal)>, m: int) -> Map<
    Seq<char>,
    Json,
>
    decreases members, m,
{
    if m <= 0 || m > members.len() {
        Map::empty()
    } else {
        denoted_members(members, m - 1).insert(members[m - 1].0, denoted(members[m - 1].1))
    }
}

/// Containers nest at most `depth` deep in `l`, `l` itself counted if it
/// is one.
pub open spec fn nests_within(l: Literal, depth: nat) -> bool
    decreases l,
{
    match l {
        Literal::Object(members) => depth > 0 && members_nest_within(
            members,
            (depth - 1) as nat,
        ),
        Literal::Array(items) => depth > 0 && items_nest_within(items, (depth - 1) as nat),
        _ => true,
    }
}

/// Containers nest at most `depth` deep in each of `items`.
pub open spec fn items_nest_within(items: Seq<Literal>, depth: nat) -> bool
    decreases items,
{
    forall|i: int| 0 <= i < items.len() ==> nests_within(#[trigger] items[i], depth)
}

/// Containers nest at most `depth` deep in the value of each of `members`.
pub open spec fn members_nest_within(members: Seq<(Seq<char>, Literal)>, depth: nat) -> bool
    decreases members,
{
    forall|i: int| 0 <= i < members.len() ==> nests_within((#[trigger] members[i]).1, depth)
}

/// Token `i` of the layout is `token`.
pub open spec fn token_is(a: Layout, i: int, token: TokenView) -> bool {
    0 <= i < a.count() && scan_token(a.text, a.starts[i]).outcome == Ok::<TokenView, Error>(
        token,
    )
}

/// Whether the tokens of `a` from token `i` on spell `l`, and if so, the
/// index of the token that follows the literal. An array is `[`, its
/// elements with `,` between them, and `]`; an object is `{`, its members
/// with `,` between them, each a string, `:` and a value, and `}`. In the
/// empty object the `}` stands right behind the `{`.
pub open spec fn spell(a: Layout, i: int, l: Literal) -> Option<int>
    decreases l, 0int,
{
    match l {
        Literal::Object(members) => if !token_is(a, i, TokenView::LeftBrace) {
            None
        } else if members.len() == 0 {
            if token_is(a, i + 1, TokenView::RightBrace) && a.starts[i + 1] == a.ends[i] {
                Some(i + 2)
            } else {
                None
            }
        } else {
            spell_members(a, i + 1, members, 0)
        },
        Literal::Array(items) => if !token_is(a, i, TokenView::LeftBracket) {
            None
        } else if items.len() == 0 {
            if token_is(a, i + 1, TokenView::RightBracket) {
                Some(i + 2)
            } else {
                None
            }
        } else {
            spell_items(a, i + 1, items, 0)
        },
        Literal::String(t) => if token_is(a, i, TokenView::String(t)) {
            Some(i + 1)
        } else {
            None
        },
        Literal::Number(t) => if token_is(a, i, TokenView::Number(t)) {
            Some(i + 1)
        } else {
            None
        },
        Literal::Bool(b) => if token_is(a, i, TokenView::Bool(b)) {
            Some(i + 1)
        } else {
            None
        },
        Literal::Null => if token_is(a, i, TokenView::Null) {
            Some(i + 1)
        } else {
            None
        },
    }
}

/// Whether the tokens from token `i` on spell the elements of an array
/// from element `m` on, up to its `]`.
pub open spec fn spell_items(a: Layout, i: int, items: Seq<Literal>, m: int) -> Option<int>
    decreases items, items.len() - m,
{
    if !(0 <= m < items.len()) {
        None
    } else {
        match spell(a, i, items[m]) {
            None => None,
            Some(j) => if m + 1 == items.len() {
                if token_is(a, j, TokenView::RightBracket) {
                    Some(j + 1)
                } else {
                    None
                }
            } else if token_is(a, j, TokenView::Comma) {
                spell_items(a, j + 1, items, m + 1)
            } else {
                None
            },
        }
    }
}

/// Whether the tokens from token `i` on spell the members of an object
/// from member `m` on, up to its `}`.
pub open spec fn spell_members(
    a: Layout,
    i: int,
    members: Seq<(Seq<char>, Literal)>,
    m: int,
) -> Option<int>
    decreases members, members.len() - m,
{
    if !(0 <= m < members.len()) {
        None
    } else if !(token_is(a, i, TokenView::String(members[m].0)) && token_is(
        a,
        i + 1,
        TokenView::Colon,
    )) {
        None
    } else {
        match spell(a, i + 2, members[m].1) {
            None => None,
            Some(j) => if m + 1 == members.len() {
                if token_is(a, j, TokenView::RightBrace) {
                    Some(j + 1)
                } else {
                    None
                }
            } else if token_is(a, j, TokenView::Comma) {
                spell_members(a, j + 1, members, m + 1)
            } else {
                None
            },
        }
    }
}

/// The bounds of the gap before token `i`.
proof fn lemma_gap(a: Layout, i: int)
    requires
        a.well_formed(),
        0 <= i <= a.count(),
    ensures
        0 <= a.gap_start(i) <= a.gap_end(i) <= a.text.len(),
        a.in_gap(i, a.gap_start(i)),
        a.in_gap(i, a.gap_end(i)),
{
}

/// What token `i` is, is what the tokenizer reads there, and the token
/// ends where the next gap starts.
proof fn lemma_token_is(a: Layout, i: int, token: TokenView)
    requires
        a.well_formed(),
        token_is(a, i, token),
    ensures
        a.gap_end(i) == a.starts[i],
        a.gap_start(i + 1) == a.ends[i],
        a.starts[i] < a.ends[i] <= a.text.len(),
        scan_token(a.text, a.starts[i]).end == a.ends[i],
        token.structural_char() matches Some(c) ==> a.text[a.starts[i]] == c && a.ends[i]
            == a.starts[i] + 1,
        token.structural_char() is None ==> structural(a.text[a.starts[i]]) is None,
{
    lemma_token_bounds(a, i);
}

/// A literal begins with a token that is neither `]` nor `}`.
proof fn lemma_spell_first(a: Layout, i: int, l: Literal)
    requires
        a.well_formed(),
        spell(a, i, l) is Some,
    ensures
        0 <= i < a.count(),
        a.text[a.starts[i]] != ']',
        a.text[a.starts[i]] != '}',
{
    let token = scan_token(a.text, a.starts[i]).outcome->Ok_0;
    lemma_token_is(a, i, token);
}

/// Read from the gap before token `i`, tokens that spell a literal give
/// the value it denotes, and the cursor stops behind the literal.
proof fn lemma_spell(a: Layout, i: int, l: Literal, pa: int, depth: nat)
    requires
        a.well_formed(),
        a.in_gap(i, pa),
        spell(a, i, l) is Some,
        nests_within(l, depth),
    ensures
        i < spell(a, i, l)->0 <= a.count(),
        parse_value(a.text, pa, depth) == done(denoted(l), a.gap_start(spell(a, i, l)->0)),
    decreases l, 0int,
{
    lemma_skip_gap(a, i, pa);
    lemma_spell_first(a, i, l);
    let token = scan_token(a.text, a.starts[i]).outcome->Ok_0;
    lemma_token_is(a, i, token);
    lemma_gap(a, i + 1);
    match l {
        Literal::Object(members) => {
            let from = a.ends[i];
            if members.len() == 0 {
                lemma_token_is(a, i + 1, TokenView::RightBrace);
                assert(denoted_members(members, 0) == Map::<Seq<char>, Json>::empty());
            } else {
                lemma_token_is(a, i + 1, TokenView::String(members[0].0));
                if from < a.gap_end(i + 1) {
                    assert(blank(a.text, a.gap_start(i + 1), a.gap_end(i + 1)));
                    assert(is_whitespace(a.text[from]));
                }
                lemma_spell_members(
                    a,
                    i + 1,
                    members,
                    0,
                    from,
                    Map::empty(),
                    (depth - 1) as nat,
                );
            }
        },
        Literal::Array(items) => {
            let from = a.ends[i];
            lemma_skip_gap(a, i + 1, from);
            if items.len() == 0 {
                lemma_token_is(a, i + 1, TokenView::RightBracket);
                assert(denoted_items(items, 0) =~= Seq::<Json>::empty());
            } else {
                lemma_spell_first(a, i + 1, items[0]);
                assert(denoted_items(items, 0) =~= Seq::<Json>::empty());
                lemma_spell_items(
                    a,
                    i + 1,
                    items,
                    0,
                    a.gap_end(i + 1),
                    Seq::empty(),
                    (depth - 1) as nat,
                );
            }
        },
        _ => {},
    }
}

/// Read from the gap before token `i`, tokens that spell the elements of
/// an array from element `m` on complete the array.
proof fn lemma_spell_items(
    a: Layout,
    i: int,
    items: Seq<Literal>,
    m: int,
    pa: int,
    read: Seq<Json>,
    depth: nat,
)
    requires
        a.well_formed(),
        a.in_gap(i, pa),
        spell_items(a, i, items, m) is Some,
        items_nest_within(items, depth),
        read == denoted_items(items, m),
    ensures
        i < spell_items(a, i, items, m)->0 <= a.count(),
        parse_elements(a.text, pa, read, depth) == done(
            Json::Array(denoted_items(items, items.len() as int)),
            a.gap_start(spell_items(a, i, items, m)->0),
        ),
    decreases items, items.len() - m,
{
    lemma_spell(a, i, items[m], pa, depth);
    lemma_gap(a, i);
    lemma_parse_value(a.text, pa, depth);
    let j = spell(a, i, items[m])->0;
    let v = denoted(items[m]);
    lemma_gap(a, j);
    lemma_skip_gap(a, j, a.gap_start(j));
    assert(read.push(v) =~= denoted_items(items, m + 1));
    if m + 1 == items.len() {
        lemma_token_is(a, j, TokenView::RightBracket);
    } else {
        lemma_token_is(a, j, TokenView::Comma);
        lemma_gap(a, j + 1);
        lemma_spell_items(a, j + 1, items, m + 1, a.ends[j], read.push(v), depth);
    }
}

/// Read from the gap before token `i`, tokens that spell the members of
/// an object from member `m` on complete the object.
proof fn lemma_spell_members(
    a: Layout,
    i: int,
    members: Seq<(Seq<char>, Literal)>,
    m: int,
    pa: int,
    read: Map<Seq<char>, Json>,
    depth: nat,
)
    requires
        a.well_formed(),
        a.in_gap(i, pa),
        spell_members(a, i, members, m) is Some,
        members_nest_within(members, depth),
        read == denoted_members(members, m),
    ensures
        i < spell_members(a, i, members, m)->0 <= a.count(),
        parse_members(a.text, pa, read, depth) == done(
            Json::Object(denoted_members(members, members.len() as int)),
            a.gap_start(spell_members(a, i, members, m)->0),
        ),
    decreases members, members.len() - m,
{
    lemma_skip_gap(a, i, pa);
    lemma_gap(a, i);
    lemma_token_is(a, i, TokenView::String(members[m].0));
    lemma_gap(a, i + 1);
    lemma_skip_gap(a, i + 1, a.ends[i]);
    lemma_token_is(a, i + 1, TokenView::Colon);
    lemma_gap(a, i + 2);
    let from = a.ends[i + 1];
    lemma_spell(a, i + 2, members[m].1, from, depth);
    lemma_parse_value(a.text, from, depth);
    let j = spell(a, i + 2, members[m].1)->0;
    let v = denoted(members[m].1);
    lemma_gap(a, j);
    lemma_skip_gap(a, j, a.gap_start(j));
    assert(read.insert(members[m].0, v) == denoted_members(members, m + 1));
    if m + 1 == members.len() {
        lemma_token_is(a, j, TokenView::RightBrace);
    } else {
        lemma_token_is(a, j, TokenView::Comma);
        lemma_gap(a, j + 1);
        lemma_spell_members(
            a,
            j + 1,
            members,
            m + 1,
            a.ends[j],
            read.insert(members[m].0, v),
            depth,
        );
    }
}

/// The map that members denote has exactly the keys written, each with
/// the value that the last member of that key denotes.
pub proof fn lemma_denoted_members(members: Seq<(Seq<char>, Literal)>, m: int)
    requires
        0 <= m <= members.len(),
    ensures
        denoted_members(members, m).dom().finite(),
        forall|k: Seq<char>| #[trigger]
            denoted_members(members, m).contains_key(k) <==> exists|i: int|
                0 <= i < m && #[trigger] members[i].0 == k,
        forall|i: int|
            0 <= i < m && (forall|j: int| i < j < m ==> #[trigger] members[j].0 != members[i].0)
                ==> denoted_members(members, m)[#[trigger] members[i].0] == denoted(members[i].1),
    decreases m,
{
    if m > 0 {
        lemma_denoted_members(members, m - 1);
        let before = denoted_members(members, m - 1);
        let all = denoted_members(members, m);
        assert(all == before.insert(members[m - 1].0, denoted(members[m - 1].1)));
        assert forall|k: Seq<char>| #[trigger] all.contains_key(k) implies exists|i: int|
            0 <= i < m && #[trigger] members[i].0 == k by {
            if k == members[m - 1].0 {
                assert(members[m - 1].0 == k);
            } else {
                let i = choose|i: int| 0 <= i < m - 1 && #[trigger] members[i].0 == k;
                assert(members[i].0 == k);
            }
        }
        assert forall|k: Seq<char>|
            (exists|i: int| 0 <= i < m && #[trigger] members[i].0 == k) implies #[trigger] all.contains_key(
            k,
        ) by {
            let i = choose|i: int| 0 <= i < m && #[trigger] members[i].0 == k;
            if i < m - 1 {
                assert(members[i].0 == k);
                assert(before.contains_key(k));
            }
        }
        assert forall|i: int|
            0 <= i < m && (forall|j: int|
                i < j < m ==> #[trigger] members[j].0 != members[i].0) implies all[#[trigger] members[i].0]
            == denoted(members[i].1) by {
            if i < m - 1 {
                assert(members[m - 1].0 != members[i].0);
                assert forall|j: int| i < j < m - 1 implies #[trigger] members[j].0
                    != members[i].0 by {}
            }
        }
    }
}

/// The value that a literal denotes has the literal's shape: an array has
/// one element for each element written, in order, each the value of the
/// element written there; an object has exactly the keys written, each
/// with the value of the last member of that key.
pub proof fn lemma_denoted_shape(l: Literal)
    ensures
        l matches Literal::Array(items) ==> denoted(l) is Array && denoted(l)->Array_0.len()
            == items.len() && forall|i: int|
            0 <= i < items.len() ==> denoted(l)->Array_0[i] == denoted(#[trigger] items[i]),
        l matches Literal::Object(members) ==> denoted(l) is Object && denoted(
            l,
        )->Object_0.dom().finite() && (forall|k: Seq<char>| #[trigger]
            denoted(l)->Object_0.contains_key(k) <==> exists|i: int|
                0 <= i < members.len() && #[trigger] members[i].0 == k) && (forall|i: int|
            0 <= i < members.len() && (forall|j: int|
                i < j < members.len() ==> #[trigger] members[j].0 != members[i].0) ==> denoted(
                l,
            )->Object_0[#[trigger] members[i].0] == denoted(members[i].1)),
{
    if let Literal::Object(members) = l {
        lemma_denoted_members(members, members.len() as int);
    }
}

/// A text whose tokens, from the first on, spell a literal that nests no
/// deeper than allowed reads as the value that the literal denotes: with
/// the literal's nesting, with one element for each element written, and
/// with the keys written, each with the value of its last member. The
/// cursor stops behind the literal's last token.
pub proof fn lemma_literal_shape(a: Layout, l: Literal, depth: nat)
    requires
        a.well_formed(),
        spell(a, 0, l) is Some,
        nests_within(l, depth),
    ensures
        parse_value(a.text, 0, depth) == done(denoted(l), a.gap_start(spell(a, 0, l)->0)),
{
    lemma_gap(a, 0);
    lemma_spell(a, 0, l, 0, depth);
}

/// The same of a text given by its tokens and the whitespace around them.
pub proof fn lemma_spaced_literal_shape(
    lexemes: Seq<Seq<char>>,
    gaps: Seq<Seq<char>>,
    l: Literal,
    depth: nat,
)
    requires
        spacing(lexemes, gaps),
        spell(layout_of(lexemes, gaps), 0, l) is Some,
        nests_within(l, depth),
    ensures
        parse_value(spaced(lexemes, gaps), 0, depth).outcome == Ok::<Json, Error>(denoted(l)),
{
    lemma_layout_of(lexemes, gaps);
    lemma_literal_shape(layout_of(lexemes, gaps), l, depth);
}

} // verus!
