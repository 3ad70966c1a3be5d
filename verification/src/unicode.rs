//! Conversion between Unicode character offsets and UTF-8 byte offsets.
//!
//! Every offset that the evaluator stores (test data, analyzer output,
//! resolved LLM spans) counts characters; Rust strings index bytes.

use vstd::prelude::*;
use vstd::utf8::encode_scalar;
use vstd::utf8::encode_utf8;
use vstd::utf8::is_char_boundary;
use vstd::utf8::pop_first_scalar;
use vstd::string::StringSliceAdditionalSpecFns;

use crate::text::chars_of;

verus! {

/// The number of UTF-8 bytes taken by the first `k` characters of `s`:
/// the byte offset at which character `k` starts.
pub open spec fn prefix_bytes(s: Seq<char>, k: int) -> nat {
    encode_utf8(s.take(k)).len()
}

/// The number of bytes in the UTF-8 encoding of `c`.
pub open spec fn char_width(c: char) -> nat {
    encode_scalar(c as u32).len()
}

/// The character offset at which byte offset `b` of the encoding of `s`
/// lies, where `b` starts a character (or ends `s`).
pub open spec fn char_offset_at(s: Seq<char>, b: int) -> int {
    choose|k: int| 0 <= k <= s.len() && prefix_bytes(s, k) == b
}

pub open spec fn min_int(a: int, b: int) -> int {
    if a <= b { a } else { b }
}

/// Encoding a concatenation encodes each part in turn.
pub proof fn lemma_encode_concat(a: Seq<char>, b: Seq<char>)
    ensures
        encode_utf8(a + b) == encode_utf8(a) + encode_utf8(b),
    decreases a.len(),
{
    if a.len() == 0 {
        assert(a + b =~= b);
        assert(encode_utf8(a) + encode_utf8(b) =~= encode_utf8(b));
    } else {
        assert((a + b).drop_first() =~= a.drop_first() + b);
        assert((a + b)[0] == a[0]);
        lemma_encode_concat(a.drop_first(), b);
        assert(encode_utf8(a + b) =~= encode_utf8(a) + encode_utf8(b));
    }
}

/// Every character takes between one and four bytes.
pub proof fn lemma_char_width_bounds(c: char)
    ensures
        1 <= char_width(c) <= 4,
{
}

/// Adding one character to a prefix adds that character's width.
pub proof fn lemma_prefix_step(s: Seq<char>, k: int)
    requires
        0 <= k < s.len(),
    ensures
        prefix_bytes(s, k + 1) == prefix_bytes(s, k) + char_width(s[k]),
{
    assert(s.take(k + 1) =~= s.take(k) + seq![s[k]]);
    lemma_encode_concat(s.take(k), seq![s[k]]);
    assert(seq![s[k]].drop_first() =~= Seq::<char>::empty());
    assert(encode_utf8(seq![s[k]]) =~= encode_scalar(s[k] as u32) + encode_utf8(
        Seq::<char>::empty(),
    ));
}

/// A prefix never encodes to more bytes than the whole sequence.
pub proof fn lemma_prefix_le_total(s: Seq<char>, k: int)
    requires
        0 <= k <= s.len(),
    ensures
        prefix_bytes(s, k) <= encode_utf8(s).len(),
        prefix_bytes(s, s.len() as int) == encode_utf8(s).len(),
{
    assert(s =~= s.take(k) + s.skip(k));
    lemma_encode_concat(s.take(k), s.skip(k));
    assert(s.take(s.len() as int) =~= s);
}

/// Longer prefixes take strictly more bytes.
pub proof fn lemma_prefix_strictly_increasing(s: Seq<char>, i: int, j: int)
    requires
        0 <= i < j <= s.len(),
    ensures
        prefix_bytes(s, i) < prefix_bytes(s, j),
    decreases j - i,
{
    lemma_prefix_step(s, j - 1);
    lemma_char_width_bounds(s[j - 1]);
    if i < j - 1 {
        lemma_prefix_strictly_increasing(s, i, j - 1);
    }
}

/// Distinct character offsets give distinct byte offsets.
pub proof fn lemma_prefix_injective(s: Seq<char>, i: int, j: int)
    requires
        0 <= i <= s.len(),
        0 <= j <= s.len(),
        prefix_bytes(s, i) == prefix_bytes(s, j),
    ensures
        i == j,
{
    if i < j {
        lemma_prefix_strictly_increasing(s, i, j);
    } else if j < i {
        lemma_prefix_strictly_increasing(s, j, i);
    }
}

/// A byte offset on a character boundary of the encoding of `s` is where
/// some character starts (or where `s` ends); that character's index is
/// returned.
pub proof fn lemma_boundary_starts_char(s: Seq<char>, b: int) -> (k: int)
    requires
        is_char_boundary(encode_utf8(s), b),
    ensures
        0 <= k <= s.len(),
        prefix_bytes(s, k) == b,
    decreases s.len(),
{
    let bytes = encode_utf8(s);
    vstd::utf8::encode_utf8_valid_utf8(s);
    assert(s.take(0) =~= Seq::<char>::empty());
    if b == 0 {
        0
    } else {
        assert(s.len() > 0);
        vstd::utf8::encode_utf8_first_scalar(s);
        let w = encode_scalar(s[0] as u32).len() as int;
        let tail = s.drop_first();
        assert(bytes =~= encode_scalar(s[0] as u32) + encode_utf8(tail));
        assert(pop_first_scalar(bytes) =~= encode_utf8(tail));
        let j = lemma_boundary_starts_char(tail, b - w);
        assert(s.take(j + 1) =~= seq![s[0]] + tail.take(j));
        lemma_encode_concat(seq![s[0]], tail.take(j));
        assert(seq![s[0]].drop_first() =~= Seq::<char>::empty());
        assert(encode_utf8(seq![s[0]]) =~= encode_scalar(s[0] as u32) + encode_utf8(
            Seq::<char>::empty(),
        ));
        j + 1
    }
}

/// Every character offset of `s` lands on a character boundary of its
/// encoding.
pub proof fn lemma_prefix_is_boundary(s: Seq<char>, k: int)
    requires
        0 <= k <= s.len(),
    ensures
        is_char_boundary(encode_utf8(s), prefix_bytes(s, k) as int),
    decreases s.len(),
{
    let bytes = encode_utf8(s);
    vstd::utf8::encode_utf8_valid_utf8(s);
    assert(s.take(0) =~= Seq::<char>::empty());
    if k > 0 {
        vstd::utf8::encode_utf8_first_scalar(s);
        let tail = s.drop_first();
        assert(bytes =~= encode_scalar(s[0] as u32) + encode_utf8(tail));
        assert(pop_first_scalar(bytes) =~= encode_utf8(tail));
        lemma_prefix_is_boundary(tail, k - 1);
        assert(s.take(k) =~= seq![s[0]] + tail.take(k - 1));
        lemma_encode_concat(seq![s[0]], tail.take(k - 1));
        assert(seq![s[0]].drop_first() =~= Seq::<char>::empty());
        assert(encode_utf8(seq![s[0]]) =~= encode_scalar(s[0] as u32) + encode_utf8(
            Seq::<char>::empty(),
        ));
        lemma_prefix_le_total(tail, k - 1);
        lemma_char_width_bounds(s[0]);
    }
}

/// The UTF-8 width of one character, from its scalar value.
pub fn char_width_exec(c: char) -> (w: usize)
    ensures
        w == char_width(c),
{
    proof {
        vstd::utf8::char_is_scalar(c);
    }
    let v = c as u32;
    if v <= 0x7f {
        1
    } else if v <= 0x7ff {
        2
    } else if v <= 0xffff {
        3
    } else {
        4
    }
}

/// Converts a character offset into a byte offset in `text`; an offset at or
/// past the last character gives the byte length of `text`.
pub fn char_to_byte(text: &str, char_offset: usize) -> (byte_offset: usize)
    ensures
        byte_offset == prefix_bytes(text@, min_int(char_offset as int, text@.len() as int)),
        char_offset >= text@.len() ==> byte_offset == text.spec_bytes().len(),
        is_char_boundary(text.spec_bytes(), byte_offset as int),
{
    proof {
        lemma_prefix_is_boundary(text@, min_int(char_offset as int, text@.len() as int));
    }
    let chars = chars_of(text);
    let total = text.as_bytes().len();
    let n = chars.len();
    let mut i: usize = 0;
    let mut b: usize = 0;
    proof {
        assert(text@.take(0) =~= Seq::<char>::empty());
        lemma_prefix_le_total(text@, n as int);
    }
    while i < n && i < char_offset
        invariant
            chars@ == text@,
            n == chars@.len(),
            i <= n,
            i <= char_offset,
            b == prefix_bytes(text@, i as int),
            total == text.spec_bytes().len(),
            text.spec_bytes() == encode_utf8(text@),
        decreases n - i,
    {
        proof {
            lemma_prefix_step(text@, i as int);
            lemma_prefix_le_total(text@, i + 1);
        }
        b = b + char_width_exec(chars[i]);
        i = i + 1;
    }
    if i < n {
        b
    } else {
        proof {
            lemma_prefix_le_total(text@, n as int);
        }
        total
    }
}

/// Converts a byte offset that starts a character (or ends `text`) into the
/// number of characters before it.
pub fn byte_to_char(text: &str, byte_offset: usize) -> (char_offset: usize)
    requires
        is_char_boundary(text.spec_bytes(), byte_offset as int),
    ensures
        char_offset <= text@.len(),
        prefix_bytes(text@, char_offset as int) == byte_offset,
        char_offset == char_offset_at(text@, byte_offset as int),
{
    let ghost k = lemma_boundary_starts_char(text@, byte_offset as int);
    let chars = chars_of(text);
    let n = chars.len();
    let mut i: usize = 0;
    let mut b: usize = 0;
    proof {
        assert(text@.take(0) =~= Seq::<char>::empty());
    }
    while b < byte_offset
        invariant
            chars@ == text@,
            n == chars@.len(),
            0 <= k <= n,
            prefix_bytes(text@, k) == byte_offset,
            i <= k,
            b == prefix_bytes(text@, i as int),
        decreases k - i,
    {
        proof {
            if i == k {
                assert(false);
            }
            lemma_prefix_step(text@, i as int);
            if i + 1 < k {
                lemma_prefix_strictly_increasing(text@, i + 1, k);
            }
        }
        b = b + char_width_exec(chars[i]);
        i = i + 1;
    }
    proof {
        if i < k {
            lemma_prefix_strictly_increasing(text@, i as int, k);
        }
        let c = char_offset_at(text@, byte_offset as int);
        lemma_prefix_injective(text@, i as int, c);
    }
    i
}

/// Converting a character offset to a byte offset and back gives the
/// offset again, clamped to the number of characters.
pub proof fn law_char_byte_char_roundtrip(s: Seq<char>, char_offset: int)
    requires
        0 <= char_offset,
    ensures
        char_offset_at(s, prefix_bytes(s, min_int(char_offset, s.len() as int)) as int) == min_int(
            char_offset,
            s.len() as int,
        ),
{
    let c = min_int(char_offset, s.len() as int);
    let b = prefix_bytes(s, c) as int;
    assert(0 <= c <= s.len() && prefix_bytes(s, c) == b);
    let k = char_offset_at(s, b);
    lemma_prefix_injective(s, k, c);
}

/// Converting a byte offset that starts a character to a character offset
/// and back gives the byte offset again.
pub proof fn law_byte_char_byte_roundtrip(s: Seq<char>, byte_offset: int)
    requires
        is_char_boundary(encode_utf8(s), byte_offset),
    ensures
        0 <= char_offset_at(s, byte_offset) <= s.len(),
        prefix_bytes(s, min_int(char_offset_at(s, byte_offset), s.len() as int)) == byte_offset,
{
    let w = lemma_boundary_starts_char(s, byte_offset);
    assert(0 <= w <= s.len() && prefix_bytes(s, w) == byte_offset);
}

} // verus!
