//! Whitespace between tokens does not change what a text denotes.

use vstd::prelude::*;
use crate::chars::{is_digit, is_whitespace};
use crate::grammar::{
    lemma_parse_value, parse_array, parse_elements, parse_members, parse_object, parse_value,
    Json,
};
use crate::scan::{
    char_at, lemma_scan_number, lemma_scan_string_body, lemma_scan_token, scan_string_body,
    scan_token, skip_whitespace, structural, Scan, TokenView,
};
use crate::token::Error;

verus! {

/// Only whitespace stands in `text` from `from` up to `to`.
pub open spec fn blank(text: Seq<char>, from: int, to: int) -> bool {
    forall|k: int| from <= k < to ==> is_whitespace(#[trigger] text[k])
}

/// A text together with the places of its tokens: token `i` spans the
/// characters from `starts[i]` up to `ends[i]`.
pub struct Layout {
    pub text: Seq<char>,
    pub starts: Seq<int>,
    pub ends: Seq<int>,
}

impl Layout {
    /// The number of tokens.
    pub open spec fn count(self) -> int {
        self.starts.len() as int
    }

    /// Where the gap before token `i` begins: at the end of the token
    /// before it, or at the start of the text.
    pub open spec fn gap_start(self, i: int) -> int {
        if i <= 0 {
            0
        } else {
            self.ends[i - 1]
        }
    }

    /// Where the gap before token `i` ends: at the start of that token, or
    /// at the end of the text for the gap after the last token.
    pub open spec fn gap_end(self, i: int) -> int {
        if i < self.count() {
            self.starts[i]
        } else {
            self.text.len() as int
        }
    }

    /// The gaps hold whitespace only, the tokens follow one another, and
    /// the tokenizer reads each token from its start exactly to its end.
    pub open spec fn well_formed(self) -> bool {
        &&& self.ends.len() == self.starts.len()
        &&& forall|i: int|
            0 <= i <= self.count() ==> 0 <= #[trigger] self.gap_start(i) <= self.gap_end(i)
                <= self.text.len()
        &&& forall|i: int|
            0 <= i <= self.count() ==> blank(self.text, #[trigger] self.gap_start(i), self.gap_end(i))
        &&& forall|i: int|
            0 <= i < self.count() ==> (#[trigger] scan_token(self.text, self.starts[i])).outcome is Ok
                && scan_token(self.text, self.starts[i]).end == self.ends[i]
    }

    /// The characters of token `i`.
    pub open spec fn token_text(self, i: int) -> Seq<char> {
        self.text.subrange(self.starts[i], self.ends[i])
    }

    /// `pos` lies in the gap before token `i`, ends included.
    pub open spec fn in_gap(self, i: int, pos: int) -> bool {
        0 <= i <= self.count() && self.gap_start(i) <= pos <= self.gap_end(i)
    }
}

/// Token for token, the two layouts hold the same characters.
pub open spec fn same_tokens(a: Layout, b: Layout) -> bool {
    &&& a.count() == b.count()
    &&& forall|i: int| 0 <= i < a.count() ==> #[trigger] a.token_text(i) == b.token_text(i)
}

/// Where `}` follows `{` as the next token, either both layouts have
/// whitespace between the two or neither has.
pub open spec fn same_empty_objects(a: Layout, b: Layout) -> bool {
    forall|i: int|
        0 <= i && i + 1 < a.count() && a.text[a.starts[i]] == '{' && a.text[#[trigger] a.starts[i
            + 1]] == '}' ==> (a.starts[i + 1] == a.ends[i] <==> b.starts[i + 1] == b.ends[i])
}

/// The two layouts are of one token sequence, spaced in two ways.
pub open spec fn respaced(a: Layout, b: Layout) -> bool {
    &&& a.well_formed()
    &&& b.well_formed()
    &&& same_tokens(a, b)
    &&& same_empty_objects(a, b)
}

/// Two results agree: the same value or the same error, and after a value
/// both cursors stand behind the same token.
pub open spec fn agree(ra: Scan<Json>, rb: Scan<Json>, a: Layout, b: Layout, i: int) -> bool {
    &&& ra.outcome == rb.outcome
    &&& ra.outcome is Ok ==> exists|j: int|
        i < j <= a.count() && ra.end == #[trigger] a.gap_start(j) && rb.end == b.gap_start(j)
}

/// Over whitespace that ends at `to`, skipping from `from` ends at `to`.
proof fn lemma_skip_blank(s: Seq<char>, from: int, to: int)
    requires
        0 <= from <= to <= s.len(),
        blank(s, from, to),
        to < s.len() ==> !is_whitespace(s[to]),
    ensures
        skip_whitespace(s, from) == to,
    decreases to - from,
{
    if from < to {
        assert(is_whitespace(s[from]));
        lemma_skip_blank(s, from + 1, to);
    }
}

/// From anywhere in the gap before token `i`, skipping whitespace leads to
/// the start of that token.
pub proof fn lemma_skip_gap(a: Layout, i: int, pos: int)
    requires
        a.well_formed(),
        a.in_gap(i, pos),
    ensures
        skip_whitespace(a.text, pos) == a.gap_end(i),
{
    let to = a.gap_end(i);
    assert(0 <= a.gap_start(i) <= to <= a.text.len());
    assert(blank(a.text, a.gap_start(i), to));
    if i < a.count() {
        assert(scan_token(a.text, a.starts[i]).outcome is Ok);
    }
    lemma_skip_blank(a.text, pos, to);
}

/// A token is not empty and lies inside the text.
pub proof fn lemma_token_bounds(a: Layout, i: int)
    requires
        a.well_formed(),
        0 <= i < a.count(),
    ensures
        0 <= a.gap_start(i) <= a.starts[i] < a.ends[i] <= a.text.len(),
        a.ends[i] == a.gap_start(i + 1),
        a.starts[i] == a.gap_end(i),
        scan_token(a.text, a.starts[i]).outcome is Ok,
        scan_token(a.text, a.starts[i]).end == a.ends[i],
{
    assert(0 <= a.gap_start(i) <= a.gap_end(i) <= a.text.len());
    assert(scan_token(a.text, a.starts[i]).outcome is Ok);
    lemma_scan_token(a.text, a.starts[i]);
}

/// A token that begins with a structural character is that character alone.
proof fn lemma_structural_token(a: Layout, i: int)
    requires
        a.well_formed(),
        0 <= i < a.count(),
        structural(a.text[a.starts[i]]) is Some,
    ensures
        a.ends[i] == a.starts[i] + 1,
        scan_token(a.text, a.starts[i]).outcome == Ok::<TokenView, Error>(
            structural(a.text[a.starts[i]])->0,
        ),
{
    lemma_token_bounds(a, i);
}

/// Two string bodies of the same characters read the same.
proof fn lemma_same_string_body(s: Seq<char>, p: int, t: Seq<char>, q: int, n: int)
    requires
        0 <= p,
        0 <= q,
        0 <= n,
        p + n <= s.len(),
        q + n <= t.len(),
        s.subrange(p, p + n) == t.subrange(q, q + n),
        scan_string_body(s, p).outcome is Ok,
        scan_string_body(s, p).end == p + n,
    ensures
        scan_string_body(t, q).outcome == scan_string_body(s, p).outcome,
        scan_string_body(t, q).end == q + n,
    decreases n,
{
    lemma_scan_string_body(s, p);
    let ss = s.subrange(p, p + n);
    let tt = t.subrange(q, q + n);
    assert(ss[0] == tt[0]);
    if s[p] == '"' {
    } else if s[p] == '\\' {
        lemma_scan_string_body(s, p + 2);
        assert(ss[1] == tt[1]);
        assert(s.subrange(p + 2, p + n) == ss.subrange(2, n));
        assert(t.subrange(q + 2, q + n) == tt.subrange(2, n));
        lemma_same_string_body(s, p + 2, t, q + 2, n - 2);
    } else {
        lemma_scan_string_body(s, p + 1);
        assert(s.subrange(p + 1, p + n) == ss.subrange(1, n));
        assert(t.subrange(q + 1, q + n) == tt.subrange(1, n));
        lemma_same_string_body(s, p + 1, t, q + 1, n - 1);
    }
}

/// Token `i` is the same token in both layouts.
proof fn lemma_same_token(a: Layout, b: Layout, i: int)
    requires
        respaced(a, b),
        0 <= i < a.count(),
    ensures
        scan_token(a.text, a.starts[i]).outcome == scan_token(b.text, b.starts[i]).outcome,
        a.text[a.starts[i]] == b.text[b.starts[i]],
{
    lemma_token_bounds(a, i);
    lemma_token_bounds(b, i);
    let s = a.text;
    let t = b.text;
    let p = a.starts[i];
    let q = b.starts[i];
    let ss = a.token_text(i);
    let tt = b.token_text(i);
    assert(ss == tt);
    assert(ss.len() == a.ends[i] - p);
    assert(tt.len() == b.ends[i] - q);
    let n = a.ends[i] - a.starts[i];
    assert(ss[0] == tt[0]);
    let c = s[p];
    if structural(c) is Some {
    } else if c == '"' {
        assert(s.subrange(p + 1, p + n) == ss.subrange(1, n));
        assert(t.subrange(q + 1, q + n) == tt.subrange(1, n));
        lemma_same_string_body(s, p + 1, t, q + 1, n - 1);
    } else if is_digit(c) || c == '-' {
        lemma_scan_number(s, p);
        lemma_scan_number(t, q);
    } else {
    }
}

/// Read from the gap before token `i`, a value is the same in both layouts.
proof fn lemma_value_respaced(a: Layout, b: Layout, i: int, pa: int, pb: int, depth: nat)
    requires
        respaced(a, b),
        a.in_gap(i, pa),
        b.in_gap(i, pb),
    ensures
        agree(parse_value(a.text, pa, depth), parse_value(b.text, pb, depth), a, b, i),
    decreases a.count() - i, 0int,
{
    lemma_skip_gap(a, i, pa);
    lemma_skip_gap(b, i, pb);
    if i < a.count() {
        lemma_token_bounds(a, i);
        lemma_token_bounds(b, i);
        lemma_same_token(a, b, i);
        let token = scan_token(a.text, a.starts[i]);
        assert(a.gap_start(i + 1) == a.ends[i]);
        match token.outcome {
            Ok(TokenView::LeftBrace) => {
                if depth > 0 {
                    lemma_object_respaced(a, b, i + 1, (depth - 1) as nat);
                }
            },
            Ok(TokenView::LeftBracket) => {
                assert(0 <= a.gap_start(i + 1) <= a.gap_end(i + 1) <= a.text.len());
                assert(0 <= b.gap_start(i + 1) <= b.gap_end(i + 1) <= b.text.len());
                if depth > 0 {
                    lemma_array_respaced(a, b, i + 1, a.ends[i], b.ends[i], (depth - 1) as nat);
                }
            },
            _ => {},
        }
    }
}

/// Read from the gap before token `i`, the rest of an array is the same in
/// both layouts.
proof fn lemma_array_respaced(a: Layout, b: Layout, i: int, pa: int, pb: int, depth: nat)
    requires
        respaced(a, b),
        a.in_gap(i, pa),
        b.in_gap(i, pb),
    ensures
        agree(parse_array(a.text, pa, depth), parse_array(b.text, pb, depth), a, b, i),
    decreases a.count() - i, 2int,
{
    lemma_skip_gap(a, i, pa);
    lemma_skip_gap(b, i, pb);
    if i < a.count() {
        lemma_token_bounds(a, i);
        lemma_token_bounds(b, i);
        lemma_same_token(a, b, i);
        if a.text[a.starts[i]] == ']' {
            lemma_structural_token(a, i);
            lemma_structural_token(b, i);
            assert(a.gap_start(i + 1) == a.ends[i]);
        } else {
            lemma_elements_respaced(a, b, i, a.starts[i], b.starts[i], Seq::empty(), depth);
        }
    } else {
        lemma_elements_respaced(a, b, i, a.gap_end(i), b.gap_end(i), Seq::empty(), depth);
    }
}

/// Read from the gap before token `i`, the elements of an array are the
/// same in both layouts.
proof fn lemma_elements_respaced(
    a: Layout,
    b: Layout,
    i: int,
    pa: int,
    pb: int,
    items: Seq<Json>,
    depth: nat,
)
    requires
        respaced(a, b),
        a.in_gap(i, pa),
        b.in_gap(i, pb),
    ensures
        agree(
            parse_elements(a.text, pa, items, depth),
            parse_elements(b.text, pb, items, depth),
            a,
            b,
            i,
        ),
    decreases a.count() - i, 1int,
{
    lemma_value_respaced(a, b, i, pa, pb, depth);
    let ra = parse_value(a.text, pa, depth);
    let rb = parse_value(b.text, pb, depth);
    assert(0 <= a.gap_start(i) <= a.gap_end(i) <= a.text.len());
    assert(0 <= b.gap_start(i) <= b.gap_end(i) <= b.text.len());
    lemma_parse_value(a.text, pa, depth);
    lemma_parse_value(b.text, pb, depth);
    if let Ok(v) = ra.outcome {
        let j = choose|j: int|
            i < j <= a.count() && ra.end == #[trigger] a.gap_start(j) && rb.end == b.gap_start(j);
        assert(0 <= a.gap_start(j) <= a.gap_end(j) <= a.text.len());
        assert(0 <= b.gap_start(j) <= b.gap_end(j) <= b.text.len());
        lemma_skip_gap(a, j, ra.end);
        lemma_skip_gap(b, j, rb.end);
        if j < a.count() {
            lemma_token_bounds(a, j);
            lemma_token_bounds(b, j);
            lemma_same_token(a, b, j);
            let c = a.text[a.starts[j]];
            if c == ']' {
                lemma_structural_token(a, j);
                lemma_structural_token(b, j);
                assert(a.gap_start(j + 1) == a.ends[j]);
            } else if c == ',' {
                lemma_structural_token(a, j);
                lemma_structural_token(b, j);
                assert(0 <= a.gap_start(j + 1) <= a.gap_end(j + 1) <= a.text.len());
                assert(0 <= b.gap_start(j + 1) <= b.gap_end(j + 1) <= b.text.len());
                lemma_elements_respaced(a, b, j + 1, a.ends[j], b.ends[j], items.push(v), depth);
            }
        }
    }
}

/// Read from right behind the `{` that is token `i - 1`, the rest of an
/// object is the same in both layouts.
proof fn lemma_object_respaced(a: Layout, b: Layout, i: int, depth: nat)
    requires
        respaced(a, b),
        1 <= i <= a.count(),
        a.text[a.starts[i - 1]] == '{',
    ensures
        agree(
            parse_object(a.text, a.gap_start(i), depth),
            parse_object(b.text, b.gap_start(i), depth),
            a,
            b,
            i,
        ),
    decreases a.count() - i, 2int,
{
    let pa = a.gap_start(i);
    let pb = b.gap_start(i);
    assert(0 <= a.gap_start(i) <= a.gap_end(i) <= a.text.len());
    assert(0 <= b.gap_start(i) <= b.gap_end(i) <= b.text.len());
    assert(blank(a.text, a.gap_start(i), a.gap_end(i)));
    assert(blank(b.text, b.gap_start(i), b.gap_end(i)));
    if i < a.count() {
        lemma_token_bounds(a, i);
        lemma_token_bounds(b, i);
        lemma_same_token(a, b, i);
        if a.text[a.starts[i]] == '}' {
            lemma_structural_token(a, i);
            lemma_structural_token(b, i);
            assert(a.gap_start(i + 1) == a.ends[i]);
            assert(a.starts[i - 1 + 1] == a.starts[i]);
            assert(a.starts[i] == a.ends[i - 1] <==> b.starts[i] == b.ends[i - 1]);
        }
    }
    if pa < a.gap_end(i) {
        assert(is_whitespace(a.text[pa]));
    }
    if pb < b.gap_end(i) {
        assert(is_whitespace(b.text[pb]));
    }
    if !char_at(a.text, pa, '}') {
        assert(!char_at(b.text, pb, '}'));
        lemma_members_respaced(a, b, i, pa, pb, Map::empty(), depth);
    }
}

/// Read from the gap before token `i`, the members of an object are the
/// same in both layouts.
proof fn lemma_members_respaced(
    a: Layout,
    b: Layout,
    i: int,
    pa: int,
    pb: int,
    members: Map<Seq<char>, Json>,
    depth: nat,
)
    requires
        respaced(a, b),
        a.in_gap(i, pa),
        b.in_gap(i, pb),
    ensures
        agree(
            parse_members(a.text, pa, members, depth),
            parse_members(b.text, pb, members, depth),
            a,
            b,
            i,
        ),
    decreases a.count() - i, 1int,
{
    lemma_skip_gap(a, i, pa);
    lemma_skip_gap(b, i, pb);
    assert(0 <= a.gap_start(i) <= a.gap_end(i) <= a.text.len());
    assert(0 <= b.gap_start(i) <= b.gap_end(i) <= b.text.len());
    if i < a.count() {
        lemma_token_bounds(a, i);
        lemma_token_bounds(b, i);
        lemma_same_token(a, b, i);
        let key = scan_token(a.text, a.starts[i]);
        if let Ok(TokenView::String(name)) = key.outcome {
            let c = i + 1;
            assert(0 <= a.gap_start(c) <= a.gap_end(c) <= a.text.len());
            assert(0 <= b.gap_start(c) <= b.gap_end(c) <= b.text.len());
            lemma_skip_gap(a, c, a.ends[i]);
            lemma_skip_gap(b, c, b.ends[i]);
            if c < a.count() {
                lemma_token_bounds(a, c);
                lemma_token_bounds(b, c);
                lemma_same_token(a, b, c);
                if a.text[a.starts[c]] == ':' {
                    lemma_structural_token(a, c);
                    lemma_structural_token(b, c);
                    let m = c + 1;
                    assert(0 <= a.gap_start(m) <= a.gap_end(m) <= a.text.len());
                    assert(0 <= b.gap_start(m) <= b.gap_end(m) <= b.text.len());
                    lemma_value_respaced(a, b, m, a.ends[c], b.ends[c], depth);
                    let ra = parse_value(a.text, a.ends[c], depth);
                    let rb = parse_value(b.text, b.ends[c], depth);
                    lemma_parse_value(a.text, a.ends[c], depth);
                    lemma_parse_value(b.text, b.ends[c], depth);
                    if let Ok(v) = ra.outcome {
                        let j = choose|j: int|
                            m < j <= a.count() && ra.end == #[trigger] a.gap_start(j) && rb.end
                                == b.gap_start(j);
                        assert(0 <= a.gap_start(j) <= a.gap_end(j) <= a.text.len());
                        assert(0 <= b.gap_start(j) <= b.gap_end(j) <= b.text.len());
                        lemma_skip_gap(a, j, ra.end);
                        lemma_skip_gap(b, j, rb.end);
                        if j < a.count() {
                            lemma_token_bounds(a, j);
                            lemma_token_bounds(b, j);
                            lemma_same_token(a, b, j);
                            let d = a.text[a.starts[j]];
                            if d == '}' {
                                lemma_structural_token(a, j);
                                lemma_structural_token(b, j);
                                assert(a.gap_start(j + 1) == a.ends[j]);
                            } else if d == ',' {
                                lemma_structural_token(a, j);
                                lemma_structural_token(b, j);
                                assert(0 <= a.gap_start(j + 1) <= a.gap_end(j + 1)
                                    <= a.text.len());
                                assert(0 <= b.gap_start(j + 1) <= b.gap_end(j + 1)
                                    <= b.text.len());
                                lemma_members_respaced(
                                    a,
                                    b,
                                    j + 1,
                                    a.ends[j],
                                    b.ends[j],
                                    members.insert(name, v),
                                    depth,
                                );
                            }
                        }
                    }
                }
            }
        }
    }
}

/// Two texts that hold the same tokens, with whitespace of any length
/// between them, denote the same value or fail with the same error. The
/// one place where whitespace counts is between `{` and a `}` that follows
/// it as the next token: there both texts have some, or neither has.
pub proof fn lemma_respaced(a: Layout, b: Layout, depth: nat)
    requires
        respaced(a, b),
    ensures
        parse_value(a.text, 0, depth).outcome == parse_value(b.text, 0, depth).outcome,
{
    assert(0 <= a.gap_start(0) <= a.gap_end(0) <= a.text.len());
    assert(0 <= b.gap_start(0) <= b.gap_end(0) <= b.text.len());
    lemma_value_respaced(a, b, 0, 0, 0, depth);
}

/// The text made of the first `k` tokens, each behind its gap.
pub open spec fn joined(lexemes: Seq<Seq<char>>, gaps: Seq<Seq<char>>, k: int) -> Seq<char>
    decreases k,
{
    if k <= 0 {
        Seq::empty()
    } else {
        joined(lexemes, gaps, k - 1) + gaps[k - 1] + lexemes[k - 1]
    }
}

/// The text made of the tokens `lexemes` with `gaps[i]` in front of token
/// `i` and the last gap at the end.
pub open spec fn spaced(lexemes: Seq<Seq<char>>, gaps: Seq<Seq<char>>) -> Seq<char> {
    joined(lexemes, gaps, lexemes.len() as int) + gaps[lexemes.len() as int]
}

/// Where token `i` starts in the spaced text.
pub open spec fn start_of(lexemes: Seq<Seq<char>>, gaps: Seq<Seq<char>>, i: int) -> int {
    (joined(lexemes, gaps, i).len() + gaps[i].len()) as int
}

/// `gaps` are whitespace, one before each token and one at the end, and
/// they keep the tokens apart: in the spaced text the tokenizer reads each
/// of `lexemes` as one token, from its first character to its last.
pub open spec fn spacing(lexemes: Seq<Seq<char>>, gaps: Seq<Seq<char>>) -> bool {
    &&& gaps.len() == lexemes.len() + 1
    &&& forall|i: int| 0 <= i < gaps.len() ==> blank(#[trigger] gaps[i], 0, gaps[i].len() as int)
    &&& forall|i: int|
        0 <= i < lexemes.len() ==> (#[trigger] scan_token(
            spaced(lexemes, gaps),
            start_of(lexemes, gaps, i),
        )).outcome is Ok && scan_token(spaced(lexemes, gaps), start_of(lexemes, gaps, i)).end
            == start_of(lexemes, gaps, i) + lexemes[i].len()
}

/// The layout of the spaced text.
pub open spec fn layout_of(lexemes: Seq<Seq<char>>, gaps: Seq<Seq<char>>) -> Layout {
    Layout {
        text: spaced(lexemes, gaps),
        starts: Seq::new(lexemes.len(), |i: int| start_of(lexemes, gaps, i)),
        ends: Seq::new(lexemes.len(), |i: int| joined(lexemes, gaps, i + 1).len() as int),
    }
}

/// The text of the first `k` tokens is the beginning of the text of the
/// first `m`.
proof fn lemma_joined_prefix(lexemes: Seq<Seq<char>>, gaps: Seq<Seq<char>>, k: int, m: int)
    requires
        0 <= k <= m,
    ensures
        joined(lexemes, gaps, k).len() <= joined(lexemes, gaps, m).len(),
        joined(lexemes, gaps, m).subrange(0, joined(lexemes, gaps, k).len() as int) == joined(
            lexemes,
            gaps,
            k,
        ),
    decreases m - k,
{
    let short = joined(lexemes, gaps, k);
    if k < m {
        lemma_joined_prefix(lexemes, gaps, k, m - 1);
        let before = joined(lexemes, gaps, m - 1);
        let whole = joined(lexemes, gaps, m);
        assert(whole == before + gaps[m - 1] + lexemes[m - 1]);
        assert(whole.subrange(0, short.len() as int) =~= before.subrange(0, short.len() as int));
    } else {
        assert(short.subrange(0, short.len() as int) =~= short);
    }
}

/// In the spaced text, gap `i` and token `i` stand where the layout says.
proof fn lemma_spaced_parts(lexemes: Seq<Seq<char>>, gaps: Seq<Seq<char>>, i: int)
    requires
        gaps.len() == lexemes.len() + 1,
        0 <= i <= lexemes.len(),
    ensures
        start_of(lexemes, gaps, i) <= spaced(lexemes, gaps).len(),
        spaced(lexemes, gaps).subrange(
            joined(lexemes, gaps, i).len() as int,
            start_of(lexemes, gaps, i),
        ) == gaps[i],
        i < lexemes.len() ==> joined(lexemes, gaps, i + 1).len() == start_of(lexemes, gaps, i)
            + lexemes[i].len(),
        i < lexemes.len() ==> joined(lexemes, gaps, i + 1).len() <= spaced(lexemes, gaps).len(),
        i < lexemes.len() ==> spaced(lexemes, gaps).subrange(
            start_of(lexemes, gaps, i),
            joined(lexemes, gaps, i + 1).len() as int,
        ) == lexemes[i],
{
    let n = lexemes.len() as int;
    let text = spaced(lexemes, gaps);
    let before = joined(lexemes, gaps, i);
    if i < n {
        let upto = joined(lexemes, gaps, i + 1);
        assert(upto == before + gaps[i] + lexemes[i]);
        lemma_joined_prefix(lexemes, gaps, i + 1, n);
        let all = joined(lexemes, gaps, n);
        assert(all.subrange(0, upto.len() as int) == upto);
        assert(text.subrange(0, upto.len() as int) =~= upto);
        assert(text.subrange(before.len() as int, start_of(lexemes, gaps, i)) =~= gaps[i]) by {
            assert forall|k: int| 0 <= k < gaps[i].len() implies text[before.len() + k]
                == gaps[i][k] by {
                assert(text.subrange(0, upto.len() as int)[before.len() + k] == upto[before.len()
                    + k]);
            }
        }
        assert(text.subrange(start_of(lexemes, gaps, i), upto.len() as int) =~= lexemes[i]) by {
            assert forall|k: int| 0 <= k < lexemes[i].len() implies text[start_of(
                lexemes,
                gaps,
                i,
            ) + k] == lexemes[i][k] by {
                assert(text.subrange(0, upto.len() as int)[start_of(lexemes, gaps, i) + k]
                    == upto[start_of(lexemes, gaps, i) + k]);
            }
        }
    } else {
        assert(text.subrange(before.len() as int, start_of(lexemes, gaps, i)) =~= gaps[i]);
    }
}

/// The layout of a spaced text is well formed, and its tokens are `lexemes`.
pub proof fn lemma_layout_of(lexemes: Seq<Seq<char>>, gaps: Seq<Seq<char>>)
    requires
        spacing(lexemes, gaps),
    ensures
        layout_of(lexemes, gaps).well_formed(),
        layout_of(lexemes, gaps).count() == lexemes.len(),
        forall|i: int|
            0 <= i < lexemes.len() ==> #[trigger] layout_of(lexemes, gaps).token_text(i)
                == lexemes[i],
        forall|i: int|
            0 <= i <= lexemes.len() ==> #[trigger] layout_of(lexemes, gaps).gap_end(i)
                - layout_of(lexemes, gaps).gap_start(i) == gaps[i].len(),
{
    let a = layout_of(lexemes, gaps);
    let n = lexemes.len() as int;
    assert forall|i: int| 0 <= i <= n implies 0 <= #[trigger] a.gap_start(i) <= a.gap_end(i)
        <= a.text.len() && blank(a.text, a.gap_start(i), a.gap_end(i)) && a.gap_end(i)
        - a.gap_start(i) == gaps[i].len() && a.gap_start(i) == joined(lexemes, gaps, i).len()
        && a.gap_end(i) == start_of(lexemes, gaps, i) by {
        lemma_spaced_parts(lexemes, gaps, i);
        let from = joined(lexemes, gaps, i).len() as int;
        assert(blank(gaps[i], 0, gaps[i].len() as int));
        assert forall|k: int| from <= k < start_of(lexemes, gaps, i) implies is_whitespace(
            #[trigger] a.text[k],
        ) by {
            assert(a.text.subrange(from, start_of(lexemes, gaps, i))[k - from] == a.text[k]);
            assert(is_whitespace(gaps[i][k - from]));
        }
    }
    assert forall|i: int| 0 <= i < n implies (#[trigger] scan_token(
        a.text,
        a.starts[i],
    )).outcome is Ok && scan_token(a.text, a.starts[i]).end == a.ends[i] && a.token_text(i)
        == lexemes[i] by {
        lemma_spaced_parts(lexemes, gaps, i);
        assert(scan_token(spaced(lexemes, gaps), start_of(lexemes, gaps, i)).outcome is Ok);
    }
    assert forall|i: int| 0 <= i < n implies #[trigger] a.token_text(i) == lexemes[i] by {
        assert(scan_token(a.text, a.starts[i]).outcome is Ok);
    }
}

/// Whitespace between tokens is insignificant: the same tokens with
/// whitespace of any length, or none, before, between and after them
/// denote the same value, or fail with the same error, as long as the
/// whitespace keeps the tokens apart. The one place where whitespace counts
/// is between `{` and a `}` right after it: `{}` is the empty object, and
/// `{ }` is not. There both texts have whitespace, or neither has.
pub proof fn lemma_whitespace_between_tokens(
    lexemes: Seq<Seq<char>>,
    gaps_a: Seq<Seq<char>>,
    gaps_b: Seq<Seq<char>>,
    depth: nat,
)
    requires
        spacing(lexemes, gaps_a),
        spacing(lexemes, gaps_b),
        forall|i: int|
            0 <= i && i + 1 < lexemes.len() && lexemes[i] == seq!['{'] && #[trigger] lexemes[i
                + 1] == seq!['}'] ==> (gaps_a[i + 1].len() == 0 <==> gaps_b[i + 1].len() == 0),
    ensures
        parse_value(spaced(lexemes, gaps_a), 0, depth).outcome == parse_value(
            spaced(lexemes, gaps_b),
            0,
            depth,
        ).outcome,
{
    let a = layout_of(lexemes, gaps_a);
    let b = layout_of(lexemes, gaps_b);
    lemma_layout_of(lexemes, gaps_a);
    lemma_layout_of(lexemes, gaps_b);
    assert(same_tokens(a, b)) by {
        assert forall|i: int| 0 <= i < a.count() implies #[trigger] a.token_text(i)
            == b.token_text(i) by {
            assert(b.token_text(i) == lexemes[i]);
        }
    }
    assert(same_empty_objects(a, b)) by {
        assert forall|i: int|
            0 <= i && i + 1 < a.count() && a.text[a.starts[i]] == '{' && a.text[#[trigger] a.starts[i
                + 1]] == '}' implies (a.starts[i + 1] == a.ends[i] <==> b.starts[i + 1]
            == b.ends[i]) by {
            lemma_structural_token(a, i);
            lemma_structural_token(a, i + 1);
            assert(a.token_text(i) == lexemes[i]);
            assert(a.token_text(i + 1) == lexemes[i + 1]);
            assert(a.token_text(i)[0] == '{');
            assert(a.token_text(i + 1)[0] == '}');
            assert(lexemes[i] =~= seq!['{']);
            assert(lexemes[i + 1] =~= seq!['}']);
            assert(a.gap_end(i + 1) - a.gap_start(i + 1) == gaps_a[i + 1].len());
            assert(b.gap_end(i + 1) - b.gap_start(i + 1) == gaps_b[i + 1].len());
        }
    }
    lemma_respaced(a, b, depth);
}

} // verus!
