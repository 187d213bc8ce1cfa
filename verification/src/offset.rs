//! Byte offsets of characters in the UTF-8 form of a text.

use vstd::prelude::*;
use vstd::utf8::{encode_scalar, encode_utf8};

verus! {

/// The number of bytes that the first `n` characters of `s` take in UTF-8:
/// the byte offset at which character `n` starts.
pub open spec fn byte_offset(s: Seq<char>, n: int) -> nat {
    encode_utf8(s.take(n)).len()
}

/// The number of bytes that `c` takes in UTF-8.
pub open spec fn utf8_width(c: char) -> nat {
    encode_scalar(c as u32).len()
}

/// The number of bytes that `c` takes in UTF-8, from one to four.
pub fn width(c: char) -> (w: usize)
    ensures
        w == utf8_width(c),
        1 <= w <= 4,
{
    let v: u32 = c as u32;
    if v < 0x80 {
        1
    } else if v < 0x800 {
        2
    } else if v < 0x10000 {
        3
    } else {
        4
    }
}

/// Encoding a concatenation gives the concatenation of the encodings.
pub proof fn lemma_encode_concat(a: Seq<char>, b: Seq<char>)
    ensures
        encode_utf8(a + b) == encode_utf8(a) + encode_utf8(b),
    decreases a.len(),
{
    if a.len() == 0 {
        assert(a + b == b);
    } else {
        lemma_encode_concat(a.drop_first(), b);
        assert((a + b).drop_first() == a.drop_first() + b);
    }
}

/// The offset of the next character is the offset of this one plus its width.
pub proof fn lemma_offset_step(s: Seq<char>, n: int)
    requires
        0 <= n < s.len(),
    ensures
        byte_offset(s, n + 1) == byte_offset(s, n) + utf8_width(s[n]),
{
    let one = seq![s[n]];
    assert(s.take(n + 1) == s.take(n) + one);
    lemma_encode_concat(s.take(n), one);
    assert(one.drop_first() == Seq::<char>::empty());
    assert(encode_utf8(one) == encode_scalar(s[n] as u32) + encode_utf8(one.drop_first()));
    assert(encode_utf8(Seq::<char>::empty()).len() == 0);
}

/// Offsets grow with the position.
pub proof fn lemma_offset_monotonic(s: Seq<char>, m: int, n: int)
    requires
        0 <= m <= n <= s.len(),
    ensures
        byte_offset(s, m) <= byte_offset(s, n),
    decreases n - m,
{
    if m < n {
        lemma_offset_step(s, n - 1);
        lemma_offset_monotonic(s, m, n - 1);
    }
}

} // verus!
