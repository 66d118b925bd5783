//! Facts about the UTF-8 encoding of strings that the text buffer relies
//! on.

use vstd::prelude::*;
use vstd::utf8::*;

verus! {

/// The UTF-8 bytes of a character sequence: what a `String` holds in memory.
pub open spec fn bytes_of(chars: Seq<char>) -> Seq<u8> {
    encode_utf8(chars)
}

/// The number of bytes of a string: the length of its UTF-8 encoding.
pub(crate) fn byte_len(s: &String) -> (n: usize)
    ensures
        n as int == bytes_of(s@).len(),
{
    s.as_str().as_bytes().len()
}

/// Encoding a concatenation gives the concatenation of the encodings.
pub proof fn lemma_bytes_of_concat(a: Seq<char>, b: Seq<char>)
    ensures
        bytes_of(a + b) == bytes_of(a) + bytes_of(b),
    decreases a.len(),
{
    if a.len() == 0 {
        assert(a + b =~= b);
        assert(bytes_of(a) =~= Seq::<u8>::empty());
        assert(bytes_of(a) + bytes_of(b) =~= bytes_of(b));
    } else {
        assert((a + b)[0] == a[0]);
        assert((a + b).drop_first() =~= a.drop_first() + b);
        lemma_bytes_of_concat(a.drop_first(), b);
        assert(bytes_of(a + b) =~= bytes_of(a) + bytes_of(b));
    }
}

/// A character sequence is empty exactly when its encoding is.
pub proof fn lemma_bytes_of_empty(a: Seq<char>)
    ensures
        (bytes_of(a).len() == 0) <==> (a.len() == 0),
{
    if a.len() > 0 {
        assert(encode_scalar(a[0] as u32).len() >= 1);
        assert(bytes_of(a) == encode_scalar(a[0] as u32) + encode_utf8(a.drop_first()));
    }
}

/// The encoding of any character sequence is valid UTF-8.
pub proof fn lemma_bytes_of_valid(a: Seq<char>)
    ensures
        valid_utf8(bytes_of(a)),
{
    encode_utf8_valid_utf8(a);
}

/// In valid UTF-8, a character boundary is an index of a byte that does not
/// continue a character, or the end.
pub proof fn lemma_boundary_local(b: Seq<u8>, i: int)
    requires
        valid_utf8(b),
        0 <= i <= b.len(),
    ensures
        is_char_boundary(b, i) <==> (i == b.len() || !is_continuation_byte(b[i])),
{
    is_char_boundary_start_end_of_seq(b);
    if i < b.len() {
        is_char_boundary_iff_not_is_continuation_byte(b, i);
    }
}

/// Cutting valid UTF-8 at a character boundary `s` keeps, in the rest, every
/// later boundary `e` (shifted by `s`).
pub proof fn lemma_boundary_in_suffix(b: Seq<u8>, s: int, e: int)
    requires
        valid_utf8(b),
        0 <= s <= e <= b.len(),
        is_char_boundary(b, s),
        is_char_boundary(b, e),
    ensures
        valid_utf8(b.subrange(s, b.len() as int)),
        is_char_boundary(b.subrange(s, b.len() as int), e - s),
{
    let r = b.subrange(s, b.len() as int);
    valid_utf8_split(b, s);
    lemma_boundary_local(b, e);
    lemma_boundary_local(r, e - s);
    if e < b.len() {
        assert(r[e - s] == b[e]);
    }
}

/// Cutting out the bytes between `a` and `b` of valid UTF-8, where `b` is a
/// character boundary, leaves `a` a character boundary of what remains
/// (provided that is valid UTF-8 too).
pub proof fn lemma_cut_keeps_boundary(t: Seq<u8>, a: int, b: int)
    requires
        0 <= a <= b <= t.len(),
        valid_utf8(t),
        valid_utf8(t.take(a) + t.skip(b)),
        is_char_boundary(t, b),
    ensures
        is_char_boundary(t.take(a) + t.skip(b), a),
{
    let r = t.take(a) + t.skip(b);
    lemma_boundary_local(t, b);
    lemma_boundary_local(r, a);
    if b < t.len() {
        assert(r[a] == t[b]);
    }
}

/// Inserting bytes `c` at a character boundary `p` of valid UTF-8 leaves the
/// end of the inserted bytes a character boundary (provided the result is
/// valid UTF-8).
pub proof fn lemma_insert_keeps_boundary(t: Seq<u8>, p: int, c: Seq<u8>)
    requires
        0 <= p <= t.len(),
        valid_utf8(t),
        valid_utf8(t.take(p) + c + t.skip(p)),
        is_char_boundary(t, p),
    ensures
        is_char_boundary(t.take(p) + c + t.skip(p), p + c.len()),
{
    let r = t.take(p) + c + t.skip(p);
    lemma_boundary_local(t, p);
    lemma_boundary_local(r, p + c.len());
    if p < t.len() {
        assert(r[p + c.len()] == t[p]);
    }
}

/// Different character sequences have different encodings.
pub proof fn lemma_bytes_of_injective(a: Seq<char>, b: Seq<char>)
    requires
        bytes_of(a) == bytes_of(b),
    ensures
        a == b,
{
    encode_utf8_decode_utf8(a);
    encode_utf8_decode_utf8(b);
}

/// Every byte is an ASCII character.
pub open spec fn is_ascii_bytes(b: Seq<u8>) -> bool {
    forall|i: int| 0 <= i < b.len() ==> b[i] < 0x80
}

/// ASCII bytes are valid UTF-8 and every offset into them, the end
/// included, is a character boundary.
pub proof fn lemma_ascii_boundaries(b: Seq<u8>)
    requires
        is_ascii_bytes(b),
    ensures
        valid_utf8(b),
        forall|i: int| 0 <= i <= b.len() ==> #[trigger] is_char_boundary(b, i),
{
    assert(b.subrange(0, 0) =~= Seq::<u8>::empty());
    assert(partial_valid_utf8(b, 0));
    assert forall|i: int| 0 <= 0 <= i < b.len() <= b.len() implies #[trigger] is_leading_byte_width_1(b[i]) by {
        assert(b[i] < 0x80);
    }
    partial_valid_utf8_extend_ascii_block(b, 0, b.len() as int);
    assert(b.subrange(0, b.len() as int) =~= b);
    assert forall|i: int| 0 <= i <= b.len() implies #[trigger] is_char_boundary(b, i) by {
        lemma_boundary_local(b, i);
        if i < b.len() {
            assert(b[i] < 0x80);
        }
    }
}

} // verus!
