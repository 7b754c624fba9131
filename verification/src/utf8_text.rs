//! Byte-level facts about UTF-8 text, and the conversions between bytes
//! and strings that the rest of the library relies on.
use vstd::prelude::*;
use vstd::utf8::*;

verus! {

broadcast use vstd::utf8::group_utf8_lib;

/// `String::from_utf8` on bytes that form valid UTF-8. Its documentation
/// says that it returns `Ok` exactly for valid UTF-8 and that the string then
/// holds those bytes, so the characters are the ones the bytes encode.
#[verifier::external_body]
pub(crate) fn string_from_utf8(bytes: Vec<u8>) -> (s: String)
    requires
        valid_utf8(bytes@),
    ensures
        s@ == decode_utf8(bytes@),
{
    String::from_utf8(bytes).unwrap()
}

/// The bytes of a string slice, copied into a vector.
pub(crate) fn str_bytes(s: &str) -> (v: Vec<u8>)
    ensures
        v@ == encode_utf8(s@),
{
    let b = s.as_bytes();
    copy_bytes(b)
}

/// A copy of a byte slice.
pub(crate) fn copy_bytes(b: &[u8]) -> (v: Vec<u8>)
    ensures
        v@ == b@,
{
    let mut v: Vec<u8> = Vec::new();
    let mut i: usize = 0;
    while i < b.len()
        invariant
            i <= b@.len(),
            v@ == b@.take(i as int),
        decreases b@.len() - i,
    {
        v.push(b[i]);
        i = i + 1;
        assert(v@ =~= b@.take(i as int));
    }
    assert(b@.take(i as int) =~= b@);
    v
}

/// A byte that is not a continuation byte starts a character.
pub proof fn lemma_newline_boundary(s: Seq<u8>, k: int)
    requires
        valid_utf8(s),
        0 <= k < s.len(),
        s[k] == 10u8,
    ensures
        is_char_boundary(s, k),
        valid_utf8(s.subrange(0, k)),
        valid_utf8(s.subrange(k + 1, s.len() as int)),
{
    is_char_boundary_iff_not_is_continuation_byte(s, k);
    valid_utf8_split(s, k);
    let u = s.subrange(k, s.len() as int);
    assert(u[0] == 10u8);
    assert(is_leading_byte_width_1(u[0]));
    assert(length_of_first_scalar(u) == 1);
    assert(pop_first_scalar(u) =~= s.subrange(k + 1, s.len() as int));
}

/// Valid UTF-8 stays valid when a sub-range between two character
/// boundaries is taken.
pub proof fn lemma_valid_subrange(s: Seq<u8>, a: int, b: int)
    requires
        valid_utf8(s),
        0 <= a <= b <= s.len(),
        is_char_boundary(s, a),
        is_char_boundary(s, b),
    ensures
        valid_utf8(s.subrange(a, b)),
{
    valid_utf8_split(s, b);
    let t = s.subrange(0, b);
    if a == b {
        assert(s.subrange(a, b).len() == 0);
    } else {
        // `a` is a boundary of the prefix too: its byte is not a continuation byte.
        is_char_boundary_iff_not_is_continuation_byte(s, a);
        is_char_boundary_iff_not_is_continuation_byte(t, a);
        assert(t[a] == s[a]);
        valid_utf8_split(t, a);
        assert(t.subrange(a, b) =~= s.subrange(a, b));
    }
}

/// Splicing valid UTF-8 into valid UTF-8 at a character boundary keeps it
/// valid, and so does cutting out a range between two boundaries.
pub proof fn lemma_valid_splice(s: Seq<u8>, a: int, b: int, mid: Seq<u8>)
    requires
        valid_utf8(s),
        valid_utf8(mid),
        0 <= a <= b <= s.len(),
        is_char_boundary(s, a),
        is_char_boundary(s, b),
    ensures
        valid_utf8(s.subrange(0, a) + mid + s.subrange(b, s.len() as int)),
{
    valid_utf8_split(s, a);
    valid_utf8_split(s, b);
    valid_utf8_concat(s.subrange(0, a), mid);
    valid_utf8_concat(s.subrange(0, a) + mid, s.subrange(b, s.len() as int));
}

/// Encoding a concatenation encodes each part in turn.
pub proof fn lemma_encode_concat(a: Seq<char>, b: Seq<char>)
    ensures
        encode_utf8(a + b) == encode_utf8(a) + encode_utf8(b),
    decreases a.len(),
{
    if a.len() == 0 {
        assert(a + b =~= b);
        assert(encode_utf8(a) =~= Seq::<u8>::empty());
        assert(encode_utf8(a) + encode_utf8(b) =~= encode_utf8(b));
    } else {
        lemma_encode_concat(a.drop_first(), b);
        assert((a + b).drop_first() =~= a.drop_first() + b);
        assert((a + b)[0] == a[0]);
        assert(encode_utf8(a + b) =~= encode_utf8(a) + encode_utf8(b));
    }
}

/// Every character takes at least one byte.
pub proof fn lemma_encode_len(a: Seq<char>)
    ensures
        encode_utf8(a).len() >= a.len(),
    decreases a.len(),
{
    if a.len() > 0 {
        lemma_encode_len(a.drop_first());
    }
}

/// Where a valid text ends and another begins is a character boundary.
pub proof fn lemma_concat_boundary(a: Seq<u8>, b: Seq<u8>)
    requires
        valid_utf8(a),
        valid_utf8(b),
    ensures
        valid_utf8(a + b),
        is_char_boundary(a + b, a.len() as int),
{
    valid_utf8_concat(a, b);
    let ab = a + b;
    if b.len() == 0 {
        assert(ab =~= a);
        is_char_boundary_start_end_of_seq(ab);
    } else {
        is_char_boundary_start_end_of_seq(b);
        is_char_boundary_iff_not_is_continuation_byte(b, 0);
        assert(ab[a.len() as int] == b[0]);
        is_char_boundary_iff_not_is_continuation_byte(ab, a.len() as int);
    }
}

/// A lone newline byte is valid UTF-8.
pub proof fn lemma_newline_valid()
    ensures
        valid_utf8(seq![10u8]),
{
    let s = seq![10u8];
    assert(is_leading_byte_width_1(s[0]));
    assert((10u8 & 0x7Fu8) as u32 == 10u32) by (bit_vector);
    assert(decode_first_codepoint(s) == 10u32);
    assert(pop_first_scalar(s) =~= Seq::<u8>::empty());
    assert(valid_utf8(pop_first_scalar(s)));
    reveal_with_fuel(valid_utf8, 2);
}

/// Just past a newline byte is a character boundary.
pub proof fn lemma_after_newline_boundary(s: Seq<u8>, k: int)
    requires
        valid_utf8(s),
        0 <= k < s.len(),
        s[k] == 10u8,
    ensures
        is_char_boundary(s, k + 1),
{
    lemma_newline_boundary(s, k);
    lemma_newline_valid();
    let p = s.subrange(0, k);
    valid_utf8_concat(p, seq![10u8]);
    assert(s.subrange(0, k + 1) =~= p + seq![10u8]);
    assert(s =~= s.subrange(0, k + 1) + s.subrange(k + 1, s.len() as int));
    lemma_concat_boundary(s.subrange(0, k + 1), s.subrange(k + 1, s.len() as int));
}

} // verus!
