//! Byte- and character-level helpers on UTF-8 text: character boundaries,
//! byte slicing, equality, ASCII case-insensitive matching and byte-wise
//! ordering of strings.

use vstd::prelude::*;
use vstd::utf8::*;
use vstd::std_specs::iter::IteratorSpec;
use vstd::string::StringSliceAdditionalSpecFns;

verus! {

broadcast use vstd::utf8::group_utf8_lib;

/// Whether `b` is one of the four ASCII whitespace bytes (space, tab,
/// line feed, carriage return).
pub open spec fn is_ascii_ws_spec(b: u8) -> bool {
    b == 0x20u8 || b == 0x09u8 || b == 0x0Au8 || b == 0x0Du8
}

/// Executable form of [`is_ascii_ws_spec`].
pub(crate) fn is_ascii_ws(b: u8) -> (r: bool)
    ensures
        r == is_ascii_ws_spec(b),
{
    b == 0x20u8 || b == 0x09u8 || b == 0x0Au8 || b == 0x0Du8
}

/// The UTF-8 bytes of a character sequence.
pub open spec fn utf8(s: Seq<char>) -> Seq<u8> {
    encode_utf8(s)
}

/// Encoding distributes over concatenation.
pub proof fn lemma_utf8_concat(a: Seq<char>, b: Seq<char>)
    ensures
        encode_utf8(a + b) == encode_utf8(a) + encode_utf8(b),
    decreases a.len(),
{
    if a.len() == 0 {
        assert(a + b =~= b);
        assert(encode_utf8(a) + encode_utf8(b) =~= encode_utf8(b));
    } else {
        assert((a + b).drop_first() =~= a.drop_first() + b);
        lemma_utf8_concat(a.drop_first(), b);
        assert((a + b)[0] == a[0]);
        assert(encode_utf8(a + b) =~= encode_utf8(a) + encode_utf8(b));
    }
}

/// Every character takes between one and four bytes.
pub proof fn lemma_utf8_len_bounds(s: Seq<char>)
    ensures
        s.len() <= encode_utf8(s).len() <= 4 * s.len(),
    decreases s.len(),
{
    if s.len() > 0 {
        lemma_utf8_len_bounds(s.drop_first());
        let c = s[0] as u32;
        assert(1 <= encode_scalar(c).len() <= 4);
    }
}

/// Equal encodings mean equal characters.
pub proof fn lemma_utf8_injective(a: Seq<char>, b: Seq<char>)
    requires
        encode_utf8(a) == encode_utf8(b),
    ensures
        a == b,
{
    assert(decode_utf8(encode_utf8(a)) == a);
    assert(decode_utf8(encode_utf8(b)) == b);
}

/// In valid UTF-8, the byte right after an ASCII byte starts a character.
pub proof fn lemma_after_ascii_not_continuation(bytes: Seq<u8>, i: int)
    requires
        valid_utf8(bytes),
        0 < i < bytes.len(),
        bytes[i - 1] <= 0x7f,
    ensures
        !is_continuation_byte(bytes[i]),
    decreases bytes.len(),
{
    let l = length_of_first_scalar(bytes);
    let pop = pop_first_scalar(bytes);
    assert(valid_utf8(pop));
    if i - 1 < l {
        assert(i == 1);
        assert(l == 1);
        assert(pop.len() > 0);
        assert(valid_first_scalar(pop));
        assert(pop[0] == bytes[1]);
    } else {
        assert(pop[i - l - 1] == bytes[i - 1]);
        assert(pop[i - l] == bytes[i]);
        lemma_after_ascii_not_continuation(pop, i - l);
    }
}

/// A position that is the end of the text, the start of the text, or right
/// after or right at an ASCII byte is a character boundary.
pub proof fn lemma_ascii_boundary(bytes: Seq<u8>, i: int)
    requires
        valid_utf8(bytes),
        0 <= i <= bytes.len(),
        i == 0 || i == bytes.len() || bytes[i - 1] <= 0x7f || bytes[i] <= 0x7f,
    ensures
        is_char_boundary(bytes, i),
{
    is_char_boundary_start_end_of_seq(bytes);
    if 0 < i < bytes.len() {
        if bytes[i - 1] <= 0x7f {
            lemma_after_ascii_not_continuation(bytes, i);
        }
        is_char_boundary_iff_not_is_continuation_byte(bytes, i);
    }
}

/// Laying the valid UTF-8 sequences `p`, `m` and `q` end to end, a
/// position `k` of `m` that starts a character of `m` (or ends it) is a
/// character boundary of the whole.
pub proof fn lemma_boundary_in_concat(p: Seq<u8>, m: Seq<u8>, q: Seq<u8>, k: int)
    requires
        valid_utf8(p),
        valid_utf8(m),
        valid_utf8(q),
        0 <= k <= m.len(),
        k == m.len() || !is_continuation_byte(m[k]),
    ensures
        is_char_boundary(p + m + q, p.len() + k),
{
    let all = p + m + q;
    valid_utf8_concat(p, m);
    valid_utf8_concat(p + m, q);
    is_char_boundary_start_end_of_seq(all);
    let idx = p.len() + k;
    if idx < all.len() {
        if k < m.len() {
            assert(all[idx] == m[k]);
        } else {
            is_char_boundary_start_end_of_seq(q);
            is_char_boundary_iff_not_is_continuation_byte(q, 0);
            assert(all[idx] == q[0]);
        }
        is_char_boundary_iff_not_is_continuation_byte(all, idx);
    }
}

/// The bytes `from..to` of `s`, where both ends are character boundaries.
pub(crate) fn byte_slice(s: &str, from: usize, to: usize) -> (r: &str)
    requires
        from <= to <= s.spec_bytes().len(),
        is_char_boundary(s.spec_bytes(), from as int),
        is_char_boundary(s.spec_bytes(), to as int),
    ensures
        r.spec_bytes() == s.spec_bytes().subrange(from as int, to as int),
{
    let ghost bytes = s.spec_bytes();
    proof {
        valid_utf8_split(bytes, to as int);
        let left = bytes.subrange(0, to as int);
        if from < to {
            is_char_boundary_iff_not_is_continuation_byte(bytes, from as int);
            assert(left[from as int] == bytes[from as int]);
            is_char_boundary_iff_not_is_continuation_byte(left, from as int);
        } else {
            is_char_boundary_start_end_of_seq(left);
        }
    }
    let (left, _) = s.split_at(to);
    let (_, body) = left.split_at(from);
    assert(body.spec_bytes() =~= bytes.subrange(from as int, to as int));
    body
}

/// Whether two strings hold the same characters.
pub(crate) fn str_eq(a: &str, b: &str) -> (r: bool)
    ensures
        r == (a@ == b@),
{
    let x = a.as_bytes();
    let y = b.as_bytes();
    if x.len() != y.len() {
        return false;
    }
    let mut i: usize = 0;
    while i < x.len()
        invariant
            x@ == a.spec_bytes(),
            y@ == b.spec_bytes(),
            x@.len() == y@.len(),
            0 <= i <= x@.len(),
            forall|j: int| 0 <= j < i ==> x@[j] == y@[j],
        decreases x@.len() - i,
    {
        if x[i] != y[i] {
            return false;
        }
        i = i + 1;
    }
    proof {
        assert(x@ =~= y@);
        lemma_utf8_injective(a@, b@);
    }
    true
}

/// ASCII lowercase of a byte; other bytes are unchanged.
pub open spec fn ascii_lower(b: u8) -> u8 {
    if 0x41u8 <= b <= 0x5Au8 {
        (b + 0x20) as u8
    } else {
        b
    }
}

/// Two byte strings that are equal once ASCII letters are lowercased.
pub open spec fn ascii_ci_eq(a: Seq<u8>, b: Seq<u8>) -> bool {
    &&& a.len() == b.len()
    &&& forall|i: int| 0 <= i < a.len() ==> ascii_lower(a[i]) == ascii_lower(b[i])
}

/// ASCII case-insensitive equality of two strings, compared byte by byte.
pub(crate) fn eq_ignore_ascii_case(a: &str, b: &str) -> (r: bool)
    ensures
        r == ascii_ci_eq(a.spec_bytes(), b.spec_bytes()),
{
    let x = a.as_bytes();
    let y = b.as_bytes();
    if x.len() != y.len() {
        return false;
    }
    let mut i: usize = 0;
    while i < x.len()
        invariant
            x@ == a.spec_bytes(),
            y@ == b.spec_bytes(),
            x@.len() == y@.len(),
            0 <= i <= x@.len(),
            forall|j: int| 0 <= j < i ==> ascii_lower(x@[j]) == ascii_lower(y@[j]),
        decreases x@.len() - i,
    {
        let p = x[i];
        let q = y[i];
        let lp = if 0x41u8 <= p && p <= 0x5Au8 { p + 0x20 } else { p };
        let lq = if 0x41u8 <= q && q <= 0x5Au8 { q + 0x20 } else { q };
        if lp != lq {
            return false;
        }
        i = i + 1;
    }
    true
}

/// The number of UTF-16 code units that a character takes.
pub open spec fn utf16_width(c: char) -> nat {
    if c as u32 >= 0x10000 {
        2
    } else {
        1
    }
}

/// The number of UTF-16 code units of a character sequence.
pub open spec fn utf16_len(s: Seq<char>) -> nat
    decreases s.len(),
{
    if s.len() == 0 {
        0
    } else {
        utf16_len(s.drop_last()) + utf16_width(s.last())
    }
}

/// The UTF-16 length of a character sequence is its number of characters
/// plus the number of its characters outside the Basic Multilingual Plane
/// (at or above U+10000), which are the ones that take two code units.
pub proof fn lemma_utf16_len_counts(s: Seq<char>, supplementary: spec_fn(char) -> bool)
    requires
        forall|c: char| #[trigger] supplementary(c) <==> c as u32 >= 0x10000,
    ensures
        utf16_len(s) == s.len() + s.filter(supplementary).len(),
    decreases s.len(),
{
    if s.len() == 0 {
        assert(s.filter(supplementary) =~= Seq::<char>::empty()) by {
            reveal(Seq::filter);
        }
    } else {
        let init = s.drop_last();
        lemma_utf16_len_counts(init, supplementary);
        init.lemma_filter_push(s.last(), supplementary);
        assert(init.push(s.last()) =~= s);
    }
}

/// The UTF-16 length of two character sequences laid end to end is the sum
/// of their UTF-16 lengths.
pub proof fn lemma_utf16_len_concat(a: Seq<char>, b: Seq<char>)
    ensures
        utf16_len(a + b) == utf16_len(a) + utf16_len(b),
    decreases b.len(),
{
    if b.len() == 0 {
        assert(a + b =~= a);
    } else {
        lemma_utf16_len_concat(a, b.drop_last());
        assert((a + b).drop_last() =~= a + b.drop_last());
        assert((a + b).last() == b.last());
    }
}

/// A character takes no more UTF-16 code units than UTF-8 bytes.
pub proof fn lemma_utf16_le_utf8(s: Seq<char>)
    ensures
        utf16_len(s) <= encode_utf8(s).len(),
    decreases s.len(),
{
    if s.len() > 0 {
        let init = s.drop_last();
        let c = s.last();
        lemma_utf16_le_utf8(init);
        assert(s =~= init + seq![c]);
        lemma_utf8_concat(init, seq![c]);
        char_is_scalar(c);
        assert(seq![c].drop_first() =~= Seq::<char>::empty());
        assert(encode_utf8(seq![c]) == encode_scalar(c as u32) + encode_utf8(Seq::<char>::empty()));
    }
}

/// The number of UTF-16 code units of `s`.
fn utf16_count(s: &str) -> (r: usize)
    requires
        s.spec_bytes().len() <= usize::MAX,
    ensures
        r == utf16_len(s@),
{
    let mut it = s.chars();
    let ghost all = s@;
    let ghost mut k: int = 0;
    let mut n: usize = 0;
    proof {
        lemma_utf8_len_bounds(all);
    }
    loop
        invariant
            it.remaining() == all.skip(k),
            all == s@,
            encode_utf8(all).len() <= usize::MAX,
            0 <= k <= all.len(),
            n == utf16_len(all.take(k)),
            it.obeys_prophetic_iter_laws(),
        decreases all.len() - k,
    {
        match it.next() {
            Some(c) => {
                assert(all.skip(k)[0] == all[k]);
                assert(all.take(k + 1).drop_last() =~= all.take(k));
                assert(all.take(k + 1).last() == c);
                proof {
                    lemma_utf16_le_utf8(all.take(k + 1));
                    assert(all =~= all.take(k + 1) + all.skip(k + 1));
                    lemma_utf8_concat(all.take(k + 1), all.skip(k + 1));
                }
                let w: usize = if (c as u32) >= 0x10000 { 2 } else { 1 };
                n = n + w;
                assert(all.skip(k).drop_first() =~= all.skip(k + 1));
                proof {
                    k = k + 1;
                }
            },
            None => {
                assert(k == all.len());
                assert(all.take(k) =~= all);
                return n;
            },
        }
    }
}

/// Translate a UTF-8 byte offset within `s` into a UTF-16 code-unit offset
/// (the count of UTF-16 code units before it), saturating at the string's
/// length when the offset is at or past the end.
pub fn byte_to_utf16_offset(s: &str, byte: usize) -> (r: usize)
    requires
        s.spec_bytes().len() <= usize::MAX,
        byte >= s.spec_bytes().len() || is_char_boundary(s.spec_bytes(), byte as int),
    ensures
        r == if byte >= s.spec_bytes().len() {
            utf16_len(s@)
        } else {
            utf16_len(decode_utf8(s.spec_bytes().subrange(0, byte as int)))
        },
{
    if byte >= s.len() {
        return utf16_count(s);
    }
    proof {
        encode_utf8_valid_utf8(s@);
        is_char_boundary_start_end_of_seq(s.spec_bytes());
    }
    let prefix = byte_slice(s, 0, byte);
    proof {
        encode_utf8_decode_utf8(prefix@);
    }
    utf16_count(prefix)
}

} // verus!
