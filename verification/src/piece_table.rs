//! Piece table: the text buffer of the editor.
//!
//! The text is kept in two buffers: the original buffer, which holds the
//! initial text and never changes, and the add buffer, to which every
//! inserted text is appended. A list of pieces, each a range of one of the
//! two buffers, spells out the current text in order. Offsets and lengths
//! are in bytes of the UTF-8 encoding.

use vstd::prelude::*;
use vstd::utf8::*;
use crate::encoding::{bytes_of, byte_len, lemma_bytes_of_concat, lemma_bytes_of_empty, lemma_bytes_of_valid, lemma_boundary_in_suffix, lemma_boundary_local, lemma_bytes_of_injective};

verus! {

/// Which buffer a piece refers to.
#[derive(Debug, Clone, Copy, PartialEq, Eq, Structural)]
pub enum BufferID {
    /// The original buffer.
    Original,
    /// The add buffer.
    Add,
}

/// A range of one of the two buffers.
#[derive(Debug, Clone, Copy, PartialEq, Eq, Structural)]
pub struct Piece {
    /// The buffer the piece refers to.
    pub buffer_id: BufferID,
    /// Where the piece starts in that buffer.
    pub start_idx: usize,
    /// How many bytes the piece spans.
    pub length: usize,
}

/// The text buffer: the two buffers and the pieces that spell out the text.
pub struct PieceTable {
    original_buffer: String,
    add_buffer: String,
    pieces: Vec<Piece>,
}

// ---------------------------------------------------------------------
// The model: the text that a list of pieces spells out.
// ---------------------------------------------------------------------

/// The buffer that `id` names.
pub open spec fn buffer_of(orig: Seq<u8>, add: Seq<u8>, id: BufferID) -> Seq<u8> {
    match id {
        BufferID::Original => orig,
        BufferID::Add => add,
    }
}

/// The bytes that a piece stands for.
pub open spec fn piece_bytes(orig: Seq<u8>, add: Seq<u8>, p: Piece) -> Seq<u8> {
    buffer_of(orig, add, p.buffer_id).subrange(p.start_idx as int, p.start_idx + p.length)
}

/// A piece lies within its buffer.
pub open spec fn piece_in_bounds(orig: Seq<u8>, add: Seq<u8>, p: Piece) -> bool {
    p.start_idx + p.length <= buffer_of(orig, add, p.buffer_id).len()
}

/// Every piece lies within its buffer.
pub open spec fn pieces_in_bounds(orig: Seq<u8>, add: Seq<u8>, ps: Seq<Piece>) -> bool {
    forall|i: int| 0 <= i < ps.len() ==> piece_in_bounds(orig, add, #[trigger] ps[i])
}

/// The text spelled out by the pieces, in order.
pub open spec fn pieces_text(orig: Seq<u8>, add: Seq<u8>, ps: Seq<Piece>) -> Seq<u8>
    decreases ps.len(),
{
    if ps.len() == 0 {
        Seq::empty()
    } else {
        pieces_text(orig, add, ps.drop_last()) + piece_bytes(orig, add, ps.last())
    }
}

/// The sum of the lengths of the pieces.
pub open spec fn total_length(ps: Seq<Piece>) -> int
    decreases ps.len(),
{
    if ps.len() == 0 {
        0
    } else {
        total_length(ps.drop_last()) + ps.last().length
    }
}

/// A piece can be read as a string slice: it is empty, or both of its ends
/// are character boundaries of its buffer.
pub open spec fn piece_on_boundaries(orig: Seq<u8>, add: Seq<u8>, p: Piece) -> bool {
    p.length > 0 ==> {
        let b = buffer_of(orig, add, p.buffer_id);
        &&& is_char_boundary(b, p.start_idx as int)
        &&& is_char_boundary(b, p.start_idx + p.length)
    }
}

/// Every piece can be read as a string slice.
pub open spec fn pieces_on_boundaries(orig: Seq<u8>, add: Seq<u8>, ps: Seq<Piece>) -> bool {
    forall|i: int| 0 <= i < ps.len() ==> piece_on_boundaries(orig, add, #[trigger] ps[i])
}

/// The text after inserting `t` at `offset`: an offset past the end inserts
/// at the front, and an empty `t` changes nothing.
pub open spec fn spec_insert(s: Seq<u8>, offset: int, t: Seq<u8>) -> Seq<u8> {
    if t.len() == 0 {
        s
    } else if offset <= s.len() {
        s.take(offset) + t + s.skip(offset)
    } else {
        t + s
    }
}

/// The offset `o`, clamped to a text of length `n`.
pub open spec fn clamp_to(o: int, n: int) -> int {
    if o <= n { o } else { n }
}

/// The text after deleting `length` bytes from `offset`: the part of the
/// range that lies within the text is removed.
pub open spec fn spec_delete(s: Seq<u8>, offset: int, length: int) -> Seq<u8> {
    s.take(clamp_to(offset, s.len() as int)) + s.skip(clamp_to(offset + length, s.len() as int))
}

// ---------------------------------------------------------------------
// Lemmas on the model.
// ---------------------------------------------------------------------

/// Appending a piece appends its bytes.
proof fn lemma_text_push(orig: Seq<u8>, add: Seq<u8>, ps: Seq<Piece>, p: Piece)
    ensures
        pieces_text(orig, add, ps.push(p)) == pieces_text(orig, add, ps) + piece_bytes(orig, add, p),
        total_length(ps.push(p)) == total_length(ps) + p.length,
{
    assert(ps.push(p).drop_last() =~= ps);
}

/// The text of a concatenation of piece lists is the concatenation of their
/// texts, and likewise for the lengths.
proof fn lemma_text_concat(orig: Seq<u8>, add: Seq<u8>, a: Seq<Piece>, b: Seq<Piece>)
    ensures
        pieces_text(orig, add, a + b) == pieces_text(orig, add, a) + pieces_text(orig, add, b),
        total_length(a + b) == total_length(a) + total_length(b),
    decreases b.len(),
{
    if b.len() == 0 {
        assert(a + b =~= a);
        assert(pieces_text(orig, add, a) + pieces_text(orig, add, b) =~= pieces_text(orig, add, a));
    } else {
        assert((a + b).drop_last() =~= a + b.drop_last());
        assert((a + b).last() == b.last());
        lemma_text_concat(orig, add, a, b.drop_last());
        assert(pieces_text(orig, add, a + b) =~= pieces_text(orig, add, a) + pieces_text(orig, add, b));
    }
}

/// Within bounds, the text is as long as the sum of the piece lengths, and
/// no piece length is negative, so every prefix sum is at most the total.
proof fn lemma_text_len(orig: Seq<u8>, add: Seq<u8>, ps: Seq<Piece>)
    requires
        pieces_in_bounds(orig, add, ps),
    ensures
        pieces_text(orig, add, ps).len() == total_length(ps),
        total_length(ps) >= 0,
    decreases ps.len(),
{
    if ps.len() > 0 {
        assert(pieces_in_bounds(orig, add, ps.drop_last())) by {
            assert forall|i: int| 0 <= i < ps.drop_last().len() implies piece_in_bounds(orig, add, #[trigger] ps.drop_last()[i]) by {
                assert(ps.drop_last()[i] == ps[i]);
            }
        }
        assert(piece_in_bounds(orig, add, ps[ps.len() - 1]));
        lemma_text_len(orig, add, ps.drop_last());
    }
}

/// Prefix sums of the lengths never exceed the total.
proof fn lemma_prefix_length(ps: Seq<Piece>, i: int)
    requires
        0 <= i <= ps.len(),
    ensures
        0 <= total_length(ps.take(i)) <= total_length(ps),
    decreases ps.len(),
{
    lemma_total_nonneg(ps.take(i));
    lemma_total_nonneg(ps.skip(i));
    assert(ps =~= ps.take(i) + ps.skip(i));
    lemma_text_concat(Seq::empty(), Seq::empty(), ps.take(i), ps.skip(i));
}

/// The sum of the lengths is not negative.
proof fn lemma_total_nonneg(ps: Seq<Piece>)
    ensures
        total_length(ps) >= 0,
    decreases ps.len(),
{
    if ps.len() > 0 {
        lemma_total_nonneg(ps.drop_last());
    }
}

/// The prefix sum up to `i + 1` adds the length of piece `i`.
proof fn lemma_prefix_step(ps: Seq<Piece>, i: int)
    requires
        0 <= i < ps.len(),
    ensures
        total_length(ps.take(i + 1)) == total_length(ps.take(i)) + ps[i].length,
{
    assert(ps.take(i + 1).drop_last() =~= ps.take(i));
}

/// Growing the add buffer does not change the text of pieces that lie
/// within its old contents.
proof fn lemma_text_extend_add(orig: Seq<u8>, add: Seq<u8>, extra: Seq<u8>, ps: Seq<Piece>)
    requires
        pieces_in_bounds(orig, add, ps),
    ensures
        pieces_text(orig, add + extra, ps) == pieces_text(orig, add, ps),
        pieces_in_bounds(orig, add + extra, ps),
    decreases ps.len(),
{
    if ps.len() > 0 {
        let p = ps.last();
        assert(piece_in_bounds(orig, add, ps[ps.len() - 1]));
        assert(pieces_in_bounds(orig, add, ps.drop_last())) by {
            assert forall|i: int| 0 <= i < ps.drop_last().len() implies piece_in_bounds(orig, add, #[trigger] ps.drop_last()[i]) by {
                assert(ps.drop_last()[i] == ps[i]);
            }
        }
        lemma_text_extend_add(orig, add, extra, ps.drop_last());
        assert(piece_bytes(orig, add + extra, p) =~= piece_bytes(orig, add, p));
    }
    assert forall|i: int| 0 <= i < ps.len() implies piece_in_bounds(orig, add + extra, #[trigger] ps[i]) by {
        assert(piece_in_bounds(orig, add, ps[i]));
    }
}

/// The bytes of a piece whose ends are character boundaries of a valid
/// buffer are valid UTF-8.
proof fn lemma_piece_valid(orig: Seq<u8>, add: Seq<u8>, p: Piece)
    requires
        valid_utf8(orig),
        valid_utf8(add),
        piece_in_bounds(orig, add, p),
        piece_on_boundaries(orig, add, p),
    ensures
        valid_utf8(piece_bytes(orig, add, p)),
{
    let b = buffer_of(orig, add, p.buffer_id);
    let st = p.start_idx as int;
    let en = p.start_idx + p.length;
    if p.length == 0 {
        assert(piece_bytes(orig, add, p) =~= Seq::<u8>::empty());
    } else {
        lemma_boundary_in_suffix(b, st, en);
        let r = b.subrange(st, b.len() as int);
        valid_utf8_split(r, en - st);
        assert(r.subrange(0, en - st) =~= piece_bytes(orig, add, p));
    }
}

/// The text of pieces that can each be read as string slices of valid
/// buffers is valid UTF-8.
proof fn lemma_text_valid(orig: Seq<u8>, add: Seq<u8>, ps: Seq<Piece>)
    requires
        valid_utf8(orig),
        valid_utf8(add),
        pieces_in_bounds(orig, add, ps),
        pieces_on_boundaries(orig, add, ps),
    ensures
        valid_utf8(pieces_text(orig, add, ps)),
    decreases ps.len(),
{
    if ps.len() > 0 {
        let q = ps.drop_last();
        assert forall|i: int| 0 <= i < q.len() implies piece_in_bounds(orig, add, #[trigger] q[i])
            && piece_on_boundaries(orig, add, q[i]) by {
            assert(q[i] == ps[i]);
        }
        lemma_text_valid(orig, add, q);
        assert(piece_in_bounds(orig, add, ps[ps.len() - 1]));
        assert(piece_on_boundaries(orig, add, ps[ps.len() - 1]));
        lemma_piece_valid(orig, add, ps.last());
        valid_utf8_concat(pieces_text(orig, add, q), piece_bytes(orig, add, ps.last()));
    }
}

/// A character boundary of the text that falls strictly inside piece `i`
/// is a character boundary of that piece's buffer.
proof fn lemma_cut_boundary(orig: Seq<u8>, add: Seq<u8>, ps: Seq<Piece>, i: int, r: int)
    requires
        valid_utf8(orig),
        valid_utf8(add),
        pieces_in_bounds(orig, add, ps),
        pieces_on_boundaries(orig, add, ps),
        0 <= i < ps.len(),
        0 < r < ps[i].length,
        is_char_boundary(pieces_text(orig, add, ps), total_length(ps.take(i)) + r),
    ensures
        is_char_boundary(buffer_of(orig, add, ps[i].buffer_id), ps[i].start_idx + r),
{
    let s = pieces_text(orig, add, ps);
    let pre = pieces_text(orig, add, ps.take(i));
    let pb = piece_bytes(orig, add, ps[i]);
    let b = buffer_of(orig, add, ps[i].buffer_id);
    lemma_replace_text(orig, add, ps, i, Seq::empty());
    lemma_in_bounds_take(orig, add, ps, i);
    lemma_text_len(orig, add, ps.take(i));
    lemma_text_valid(orig, add, ps);
    assert(piece_in_bounds(orig, add, ps[i]));
    let pos = pre.len() + r;
    assert(s[pos] == pb[r]);
    assert(pb[r] == b[ps[i].start_idx + r]);
    lemma_boundary_local(s, pos);
    lemma_boundary_local(b, ps[i].start_idx + r);
}

/// Appending valid UTF-8 to a valid buffer keeps every boundary of the old
/// buffer, its end included, a boundary of the new one.
proof fn lemma_boundary_extend(a: Seq<u8>, t: Seq<u8>, i: int)
    requires
        valid_utf8(a),
        valid_utf8(t),
        0 <= i <= a.len(),
        is_char_boundary(a, i),
    ensures
        valid_utf8(a + t),
        is_char_boundary(a + t, i),
{
    valid_utf8_concat(a, t);
    lemma_boundary_local(a, i);
    lemma_boundary_local(a + t, i);
    if i == a.len() && t.len() > 0 {
        is_char_boundary_start_end_of_seq(t);
        lemma_boundary_local(t, 0);
        assert((a + t)[i] == t[0]);
    } else if i < a.len() {
        assert((a + t)[i] == a[i]);
    }
}

/// Growing the add buffer by valid UTF-8 keeps every readable piece
/// readable.
proof fn lemma_extend_add_boundaries(orig: Seq<u8>, add: Seq<u8>, extra: Seq<u8>, ps: Seq<Piece>)
    requires
        valid_utf8(add),
        valid_utf8(extra),
        pieces_in_bounds(orig, add, ps),
        pieces_on_boundaries(orig, add, ps),
    ensures
        pieces_on_boundaries(orig, add + extra, ps),
{
    assert forall|k: int| 0 <= k < ps.len() implies piece_on_boundaries(orig, add + extra, #[trigger] ps[k]) by {
        let p = ps[k];
        assert(piece_in_bounds(orig, add, p));
        assert(piece_on_boundaries(orig, add, p));
        if p.length > 0 && p.buffer_id == BufferID::Add {
            lemma_boundary_extend(add, extra, p.start_idx as int);
            lemma_boundary_extend(add, extra, p.start_idx + p.length);
        }
    }
}

/// Pieces that can be read as string slices, with one replaced by pieces
/// that can too, can all be read.
proof fn lemma_replace_boundaries(orig: Seq<u8>, add: Seq<u8>, ps: Seq<Piece>, idx: int, repl: Seq<Piece>)
    requires
        0 <= idx < ps.len(),
        pieces_on_boundaries(orig, add, ps),
        pieces_on_boundaries(orig, add, repl),
    ensures
        pieces_on_boundaries(orig, add, ps.take(idx) + repl + ps.skip(idx + 1)),
{
    let pre = ps.take(idx);
    let r = pre + repl + ps.skip(idx + 1);
    assert forall|k: int| 0 <= k < r.len() implies piece_on_boundaries(orig, add, #[trigger] r[k]) by {
        if k < pre.len() {
            assert(r[k] == ps[k]);
        } else if k < pre.len() + repl.len() {
            assert(r[k] == repl[k - pre.len()]);
        } else {
            assert(r[k] == ps[k - pre.len() - repl.len() + idx + 1]);
        }
    }
}

/// The pieces made by splitting piece `idx` at a character boundary of the
/// text around a new piece for valid text appended to the add buffer can
/// all be read as string slices, and so can the untouched pieces.
proof fn lemma_insert_boundaries(
    o: Seq<u8>,
    old_add: Seq<u8>,
    t: Seq<u8>,
    ps: Seq<Piece>,
    idx: int,
    rel: int,
    offset: int,
    left: Piece,
    mid: Piece,
    right: Piece,
)
    requires
        valid_utf8(o),
        valid_utf8(old_add),
        valid_utf8(t),
        pieces_in_bounds(o, old_add, ps),
        pieces_on_boundaries(o, old_add, ps),
        0 <= idx < ps.len(),
        0 <= rel <= ps[idx].length,
        offset <= total_length(ps) ==> total_length(ps.take(idx)) + rel == offset,
        offset > total_length(ps) ==> idx == 0 && rel == 0,
        offset <= total_length(ps) ==> is_char_boundary(pieces_text(o, old_add, ps), offset),
        left == (Piece { buffer_id: ps[idx].buffer_id, start_idx: ps[idx].start_idx, length: rel as usize }),
        mid == (Piece { buffer_id: BufferID::Add, start_idx: old_add.len() as usize, length: t.len() as usize }),
        right == (Piece {
            buffer_id: ps[idx].buffer_id,
            start_idx: (ps[idx].start_idx + rel) as usize,
            length: (ps[idx].length - rel) as usize,
        }),
        old_add.len() + t.len() <= usize::MAX,
        o.len() <= usize::MAX,
    ensures
        pieces_on_boundaries(o, old_add + t, ps),
        piece_on_boundaries(o, old_add + t, left),
        piece_on_boundaries(o, old_add + t, mid),
        piece_on_boundaries(o, old_add + t, right),
{
    let a = old_add + t;
    lemma_extend_add_boundaries(o, old_add, t, ps);
    lemma_text_extend_add(o, old_add, t, ps);
    valid_utf8_concat(old_add, t);
    is_char_boundary_start_end_of_seq(old_add);
    is_char_boundary_start_end_of_seq(a);
    lemma_boundary_extend(old_add, t, old_add.len() as int);
    assert(a.len() == old_add.len() + t.len());
    let p = ps[idx];
    assert(piece_in_bounds(o, a, p));
    assert(piece_on_boundaries(o, a, p));
    if 0 < rel < p.length {
        lemma_cut_boundary(o, a, ps, idx, rel);
    }
}

/// The piece that holds `offset`, searching from piece `i` on: the first
/// piece that ends at or after `offset`, with the offset within it; when
/// none does, the first piece at offset zero.
pub open spec fn find_from(ps: Seq<Piece>, offset: int, i: int) -> (int, int)
    decreases ps.len() - i,
{
    if i < 0 || i >= ps.len() {
        (0, 0)
    } else if total_length(ps.take(i + 1)) >= offset {
        (i, offset - total_length(ps.take(i)))
    } else {
        find_from(ps, offset, i + 1)
    }
}

/// The piece that holds `offset` and the offset within it.
pub open spec fn find_piece(ps: Seq<Piece>, offset: int) -> (int, int) {
    find_from(ps, offset, 0)
}

/// A piece as a list, left out when it is empty.
pub open spec fn keep_if_nonempty(p: Piece) -> Seq<Piece> {
    if p.length > 0 { seq![p] } else { Seq::empty() }
}

/// The pieces after inserting `t_len` bytes, appended to an add buffer of
/// `add_len` bytes, at `offset`: the piece that holds `offset` gives way to
/// its non-empty part before the offset, a piece for the new bytes, and its
/// non-empty part after the offset.
pub open spec fn spec_insert_pieces(ps: Seq<Piece>, offset: int, add_len: int, t_len: int) -> Seq<Piece> {
    let (i, rel) = find_piece(ps, offset);
    let p = ps[i];
    let left = Piece { buffer_id: p.buffer_id, start_idx: p.start_idx, length: rel as usize };
    let mid = Piece { buffer_id: BufferID::Add, start_idx: add_len as usize, length: t_len as usize };
    let right = Piece {
        buffer_id: p.buffer_id,
        start_idx: (p.start_idx + rel) as usize,
        length: (p.length - rel) as usize,
    };
    ps.take(i) + keep_if_nonempty(left) + seq![mid] + keep_if_nonempty(right) + ps.skip(i + 1)
}

/// The search from piece `i` lands on a piece at or after `i`, or on the
/// first piece.
proof fn lemma_find_from_range(ps: Seq<Piece>, offset: int, i: int)
    requires
        ps.len() >= 1,
        i >= 0,
    ensures
        0 <= find_from(ps, offset, i).0 < ps.len(),
    decreases ps.len() - i,
{
    if i < ps.len() && total_length(ps.take(i + 1)) < offset {
        lemma_find_from_range(ps, offset, i + 1);
    }
}

/// An insertion of non-empty text adds at most two pieces, and every piece
/// it leaves is an old one or a non-empty one.
pub proof fn law_insert_piece_count(ps: Seq<Piece>, offset: int, add_len: int, t_len: int)
    requires
        ps.len() >= 1,
        0 < t_len <= usize::MAX,
    ensures
        spec_insert_pieces(ps, offset, add_len, t_len).len() <= ps.len() + 2,
        forall|k: int|
            0 <= k < spec_insert_pieces(ps, offset, add_len, t_len).len() ==> (#[trigger] spec_insert_pieces(
                ps,
                offset,
                add_len,
                t_len,
            )[k]).length > 0 || ps.contains(spec_insert_pieces(ps, offset, add_len, t_len)[k]),
{
    lemma_find_from_range(ps, offset, 0);
    let (i, rel) = find_piece(ps, offset);
    let p = ps[i];
    let left = Piece { buffer_id: p.buffer_id, start_idx: p.start_idx, length: rel as usize };
    let mid = Piece { buffer_id: BufferID::Add, start_idx: add_len as usize, length: t_len as usize };
    let right = Piece {
        buffer_id: p.buffer_id,
        start_idx: (p.start_idx + rel) as usize,
        length: (p.length - rel) as usize,
    };
    let pre = ps.take(i);
    let parts = keep_if_nonempty(left) + seq![mid] + keep_if_nonempty(right);
    let post = ps.skip(i + 1);
    let r = spec_insert_pieces(ps, offset, add_len, t_len);
    assert(r =~= pre + parts + post);
    assert forall|k: int| 0 <= k < r.len() implies (#[trigger] r[k]).length > 0 || ps.contains(r[k]) by {
        if k < pre.len() {
            assert(r[k] == ps[k]);
        } else if k < pre.len() + parts.len() {
            assert(r[k] == parts[k - pre.len()]);
            assert(parts[k - pre.len()] == left || parts[k - pre.len()] == mid || parts[k - pre.len()] == right);
        } else {
            assert(r[k] == ps[k - pre.len() - parts.len() + i + 1]);
        }
    }
}

/// What is left of the pieces `ps` after a deletion, when `to_skip` bytes
/// are still to be passed before the deleted range and `to_delete` bytes of
/// it are still ahead: each piece keeps its non-empty part before the range
/// and its non-empty part after it.
pub open spec fn delete_pieces_from(ps: Seq<Piece>, to_skip: int, to_delete: int) -> Seq<Piece>
    decreases ps.len(),
{
    if ps.len() == 0 {
        Seq::empty()
    } else {
        let p = ps[0];
        let x = keep_before(to_skip, p.length as int);
        let y = keep_from(to_skip, to_delete, p.length as int);
        keep_if_nonempty(Piece { buffer_id: p.buffer_id, start_idx: p.start_idx, length: x as usize })
            + keep_if_nonempty(Piece {
            buffer_id: p.buffer_id,
            start_idx: (p.start_idx + y) as usize,
            length: (p.length - y) as usize,
        }) + delete_pieces_from(ps.drop_first(), to_skip - x, to_delete - (y - x))
    }
}

/// The pieces after deleting `length` bytes from `offset`; when nothing is
/// left, one empty piece.
pub open spec fn spec_delete_pieces(ps: Seq<Piece>, offset: int, length: int) -> Seq<Piece> {
    let r = delete_pieces_from(ps, offset, length);
    if r.len() == 0 {
        seq![Piece { buffer_id: BufferID::Original, start_idx: 0, length: 0 }]
    } else {
        r
    }
}

// ---------------------------------------------------------------------
// The piece table.
// ---------------------------------------------------------------------

impl PieceTable {
    /// The bytes of the original buffer.
    pub closed spec fn original(&self) -> Seq<u8> {
        bytes_of(self.original_buffer@)
    }

    /// The bytes of the add buffer.
    pub closed spec fn added(&self) -> Seq<u8> {
        bytes_of(self.add_buffer@)
    }

    /// The list of pieces.
    pub closed spec fn piece_list(&self) -> Seq<Piece> {
        self.pieces@
    }

    /// The table is well formed: it has at least one piece, and every piece
    /// lies within its buffer.
    pub open spec fn wf(&self) -> bool {
        &&& self.piece_list().len() >= 1
        &&& pieces_in_bounds(self.original(), self.added(), self.piece_list())
        &&& self.original().len() <= usize::MAX
        &&& self.added().len() <= usize::MAX
    }

    /// The text can be read out: every non-empty piece starts and ends on a
    /// character boundary of its buffer.
    pub open spec fn readable(&self) -> bool {
        pieces_on_boundaries(self.original(), self.added(), self.piece_list())
    }
}

impl View for PieceTable {
    type V = Seq<u8>;

    /// The text the table holds, as UTF-8 bytes.
    open spec fn view(&self) -> Seq<u8> {
        pieces_text(self.original(), self.added(), self.piece_list())
    }
}

impl PieceTable {
    /// Creates a table whose text is `text`: the original buffer holds it and
    /// one piece spans it.
    pub fn new(text: String) -> (pt: Self)
        ensures
            pt.wf(),
            pt.readable(),
            pt@ == bytes_of(text@),
            pt.original() == bytes_of(text@),
            pt.added() == Seq::<u8>::empty(),
            pt.piece_list() == seq![
                Piece { buffer_id: BufferID::Original, start_idx: 0, length: bytes_of(text@).len() as usize },
            ],
    {
        let length = byte_len(&text);
        let pt = Self {
            original_buffer: text,
            add_buffer: String::new(),
            pieces: vec![Piece { buffer_id: BufferID::Original, start_idx: 0, length }],
        };
        proof {
            let ps = pt.pieces@;
            let o = pt.original();
            lemma_bytes_of_empty(pt.add_buffer@);
            lemma_bytes_of_valid(pt.original_buffer@);
            is_char_boundary_start_end_of_seq(o);
            assert(ps.drop_last() =~= Seq::<Piece>::empty());
            assert(piece_bytes(o, pt.added(), ps[0]) =~= o);
            assert(pieces_text(o, pt.added(), ps.drop_last()) =~= Seq::<u8>::empty());
            assert(ps.last() == ps[0]);
            assert(pieces_text(o, pt.added(), ps) =~= o);
        }
        pt
    }

    /// Finds the piece that holds `offset` and the offset within it: the
    /// first piece that ends at or after `offset`. When the text is shorter
    /// than `offset`, the first piece at offset zero.
    fn find_piece_idx_from_offset(&self, offset: usize) -> (r: (usize, usize))
        requires
            self.wf(),
        ensures
            r.0 < self.piece_list().len(),
            offset <= total_length(self.piece_list()) ==> {
                &&& total_length(self.piece_list().take(r.0 as int)) + r.1 == offset
                &&& r.1 <= self.piece_list()[r.0 as int].length
                &&& forall|j: int|
                    0 <= j < r.0 ==> total_length(#[trigger] self.piece_list().take(j + 1))
                        < offset
            },
            offset > total_length(self.piece_list()) ==> r.0 == 0 && r.1 == 0,
            r.0 == find_piece(self.piece_list(), offset as int).0,
            r.1 == find_piece(self.piece_list(), offset as int).1,
    {
        let ghost ps = self.pieces@;
        let n = self.pieces.len();
        // The sum of the lengths of the pieces before `idx`.
        let mut logical_offset: usize = 0;
        let mut idx: usize = 0;
        while idx < n
            invariant
                n == ps.len(),
                ps == self.pieces@,
                idx <= n,
                logical_offset == total_length(ps.take(idx as int)),
                logical_offset <= offset,
                forall|j: int| 0 <= j < idx ==> total_length(#[trigger] ps.take(j + 1)) < offset,
                find_piece(ps, offset as int) == find_from(ps, offset as int, idx as int),
            decreases n - idx,
        {
            let piece = self.pieces[idx];
            proof {
                lemma_prefix_step(ps, idx as int);
            }
            if piece.length >= offset - logical_offset {
                proof {
                    lemma_prefix_length(ps, idx + 1);
                }
                return (idx, offset - logical_offset);
            }
            logical_offset = logical_offset + piece.length;
            idx = idx + 1;
        }
        proof {
            assert(ps.take(n as int) =~= ps);
            if n > 0 {
                assert(total_length(ps.take((n - 1) + 1)) < offset);
            }
        }
        (0, 0)
    }

    /// Splits `target_piece` at `relative_offset` around newly added text:
    /// the part before, the added text (`text_len` bytes from
    /// `text_len_before_add` in the add buffer), and the part after.
    fn split_piece(
        &self,
        target_piece: Piece,
        relative_offset: usize,
        text_len_before_add: usize,
        text_len: usize,
    ) -> (r: (Piece, Piece, Piece))
        requires
            relative_offset <= target_piece.length,
            target_piece.start_idx + target_piece.length <= usize::MAX,
        ensures
            r.0 == (Piece {
                buffer_id: target_piece.buffer_id,
                start_idx: target_piece.start_idx,
                length: relative_offset,
            }),
            r.1 == (Piece { buffer_id: BufferID::Add, start_idx: text_len_before_add, length: text_len }),
            r.2 == (Piece {
                buffer_id: target_piece.buffer_id,
                start_idx: (target_piece.start_idx + relative_offset) as usize,
                length: (target_piece.length - relative_offset) as usize,
            }),
    {
        let left_piece = Piece {
            buffer_id: target_piece.buffer_id,
            start_idx: target_piece.start_idx,
            length: relative_offset,
        };
        let middle_piece = Piece {
            buffer_id: BufferID::Add,
            start_idx: text_len_before_add,
            length: text_len,
        };
        let right_piece = Piece {
            buffer_id: target_piece.buffer_id,
            start_idx: target_piece.start_idx + relative_offset,
            length: target_piece.length - relative_offset,
        };
        (left_piece, middle_piece, right_piece)
    }
}

/// Replacing piece `idx` by a list of pieces replaces its bytes by their text.
proof fn lemma_replace_text(orig: Seq<u8>, add: Seq<u8>, ps: Seq<Piece>, idx: int, repl: Seq<Piece>)
    requires
        0 <= idx < ps.len(),
    ensures
        pieces_text(orig, add, ps) == pieces_text(orig, add, ps.take(idx)) + piece_bytes(orig, add, ps[idx])
            + pieces_text(orig, add, ps.skip(idx + 1)),
        pieces_text(orig, add, ps.take(idx) + repl + ps.skip(idx + 1)) == pieces_text(orig, add, ps.take(idx))
            + pieces_text(orig, add, repl) + pieces_text(orig, add, ps.skip(idx + 1)),
        pieces_in_bounds(orig, add, ps) && pieces_in_bounds(orig, add, repl) ==> pieces_in_bounds(
            orig,
            add,
            ps.take(idx) + repl + ps.skip(idx + 1),
        ),
        total_length(ps.take(idx) + repl + ps.skip(idx + 1)) == total_length(ps.take(idx))
            + total_length(repl) + total_length(ps.skip(idx + 1)),
{
    let pre = ps.take(idx);
    let post = ps.skip(idx + 1);
    let one = seq![ps[idx]];
    assert(ps =~= pre + one + post);
    assert(one =~= Seq::<Piece>::empty().push(ps[idx]));
    lemma_text_push(orig, add, Seq::empty(), ps[idx]);
    lemma_text_concat(orig, add, pre + one, post);
    lemma_text_concat(orig, add, pre, one);
    lemma_text_concat(orig, add, pre + repl, post);
    lemma_text_concat(orig, add, pre, repl);
    let r = pre + repl + post;
    if pieces_in_bounds(orig, add, ps) && pieces_in_bounds(orig, add, repl) {
        assert forall|k: int| 0 <= k < r.len() implies piece_in_bounds(orig, add, #[trigger] r[k]) by {
            if k < pre.len() {
                assert(r[k] == ps[k]);
            } else if k < pre.len() + repl.len() {
                assert(r[k] == repl[k - pre.len()]);
            } else {
                assert(r[k] == ps[k - pre.len() - repl.len() + idx + 1]);
            }
        }
    }
}

/// A prefix of in-bounds pieces is in bounds.
proof fn lemma_in_bounds_take(orig: Seq<u8>, add: Seq<u8>, ps: Seq<Piece>, i: int)
    requires
        pieces_in_bounds(orig, add, ps),
        0 <= i <= ps.len(),
    ensures
        pieces_in_bounds(orig, add, ps.take(i)),
{
    assert forall|k: int| 0 <= k < ps.take(i).len() implies piece_in_bounds(orig, add, #[trigger] ps.take(i)[k]) by {
        assert(ps.take(i)[k] == ps[k]);
    }
}

/// Splitting the bytes of the piece that holds the offset around the new
/// text gives the inserted text.
proof fn lemma_insert_split(
    s: Seq<u8>,
    pre: Seq<u8>,
    pb: Seq<u8>,
    post: Seq<u8>,
    t: Seq<u8>,
    offset: int,
    rel: int,
)
    requires
        s == pre + pb + post,
        t.len() > 0,
        0 <= rel <= pb.len(),
        offset <= s.len() ==> pre.len() + rel == offset,
        offset > s.len() ==> pre.len() == 0 && rel == 0,
    ensures
        pre + pb.take(rel) + t + pb.skip(rel) + post == spec_insert(s, offset, t),
{
    if offset <= s.len() {
        assert(s.take(offset) =~= pre + pb.take(rel));
        assert(s.skip(offset) =~= pb.skip(rel) + post);
        assert(pre + pb.take(rel) + t + pb.skip(rel) + post =~= s.take(offset) + t + s.skip(offset));
    } else {
        assert(pre + pb.take(rel) + t + pb.skip(rel) + post =~= t + s);
    }
}

/// The text after replacing the piece that holds the offset by its split
/// parts around the new text.
proof fn lemma_insert_result(
    o: Seq<u8>,
    a: Seq<u8>,
    ps: Seq<Piece>,
    idx: int,
    rel: int,
    parts: Seq<Piece>,
    offset: int,
    t: Seq<u8>,
)
    requires
        pieces_in_bounds(o, a, ps),
        0 <= idx < ps.len(),
        0 <= rel <= ps[idx].length,
        t.len() > 0,
        pieces_text(o, a, parts) == piece_bytes(o, a, ps[idx]).take(rel) + t + piece_bytes(o, a, ps[idx]).skip(rel),
        offset <= total_length(ps) ==> total_length(ps.take(idx)) + rel == offset,
        offset > total_length(ps) ==> idx == 0 && rel == 0,
    ensures
        pieces_text(o, a, ps.take(idx) + parts + ps.skip(idx + 1)) == spec_insert(pieces_text(o, a, ps), offset, t),
{
    lemma_replace_text(o, a, ps, idx, parts);
    lemma_in_bounds_take(o, a, ps, idx);
    lemma_text_len(o, a, ps.take(idx));
    lemma_text_len(o, a, ps);
    assert(piece_in_bounds(o, a, ps[idx]));
    let pb = piece_bytes(o, a, ps[idx]);
    if offset > total_length(ps) {
        assert(ps.take(0) =~= Seq::<Piece>::empty());
    }
    lemma_insert_split(
        pieces_text(o, a, ps),
        pieces_text(o, a, ps.take(idx)),
        pb,
        pieces_text(o, a, ps.skip(idx + 1)),
        t,
        offset,
        rel,
    );
    assert(pieces_text(o, a, ps.take(idx)) + pb.take(rel) + t + pb.skip(rel) + pieces_text(o, a, ps.skip(idx + 1))
        =~= pieces_text(o, a, ps.take(idx)) + pieces_text(o, a, parts) + pieces_text(o, a, ps.skip(idx + 1)));
}

/// A new list made of `pieces` with piece `idx` replaced by `replacement`.
fn replace_piece(pieces: &Vec<Piece>, idx: usize, replacement: &Vec<Piece>) -> (r: Vec<Piece>)
    requires
        idx < pieces.len(),
    ensures
        r@ == pieces@.take(idx as int) + replacement@ + pieces@.skip(idx + 1),
{
    let mut r: Vec<Piece> = Vec::new();
    let mut i: usize = 0;
    while i < idx
        invariant
            i <= idx < pieces.len(),
            r@ == pieces@.take(i as int),
        decreases idx - i,
    {
        r.push(pieces[i]);
        proof {
            assert(pieces@.take(i + 1) =~= pieces@.take(i as int).push(pieces@[i as int]));
        }
        i = i + 1;
    }
    let mut k: usize = 0;
    while k < replacement.len()
        invariant
            k <= replacement.len(),
            r@ == pieces@.take(idx as int) + replacement@.take(k as int),
        decreases replacement.len() - k,
    {
        r.push(replacement[k]);
        proof {
            assert(replacement@.take(k + 1) =~= replacement@.take(k as int).push(replacement@[k as int]));
            assert(pieces@.take(idx as int) + replacement@.take(k + 1) =~= (pieces@.take(idx as int)
                + replacement@.take(k as int)).push(replacement@[k as int]));
        }
        k = k + 1;
    }
    let ghost head = r@;
    assert(replacement@.take(k as int) =~= replacement@);
    let n = pieces.len();
    let mut j: usize = idx + 1;
    while j < n
        invariant
            idx + 1 <= j <= n,
            n == pieces.len(),
            r@ == head + pieces@.subrange(idx + 1, j as int),
        decreases n - j,
    {
        r.push(pieces[j]);
        proof {
            assert(head + pieces@.subrange(idx + 1, j + 1) =~= (head + pieces@.subrange(idx + 1, j as int)).push(
                pieces@[j as int],
            ));
        }
        j = j + 1;
    }
    assert(pieces@.subrange(idx + 1, n as int) =~= pieces@.skip(idx + 1));
    r
}

impl PieceTable {
    /// Inserts `text` at byte `offset`: the text is appended to the add
    /// buffer and the piece that holds `offset` is split around a new piece
    /// for it. An offset past the end of the text inserts at the front; an
    /// empty `text` changes nothing.
    #[verifier::spinoff_prover]
    pub fn insert(&mut self, offset: usize, text: &str)
        requires
            old(self).wf(),
        ensures
            final(self).wf(),
            final(self)@ == spec_insert(old(self)@, offset as int, bytes_of(text@)),
            final(self).original() == old(self).original(),
            final(self).added() == old(self).added() + bytes_of(text@),
            old(self).readable() && (offset > old(self)@.len() || is_char_boundary(old(self)@, offset as int))
                ==> final(self).readable(),
            bytes_of(text@).len() == 0 ==> final(self).piece_list() == old(self).piece_list(),
            bytes_of(text@).len() > 0 ==> final(self).piece_list() == spec_insert_pieces(
                old(self).piece_list(),
                offset as int,
                old(self).added().len() as int,
                bytes_of(text@).len() as int,
            ),
    {
        let ghost tb = bytes_of(text@);
        proof {
            lemma_bytes_of_empty(text@);
        }
        if text.is_empty() {
            assert(self.added() + tb =~= self.added());
            return;
        }
        let ghost o = self.original();
        let ghost old_add = self.added();
        let ghost ps = self.pieces@;
        let ghost s = self@;

        let text_len_before_add = byte_len(&self.add_buffer);
        let ghost old_add_chars = self.add_buffer@;
        self.add_buffer.append(text);
        let new_add_len = byte_len(&self.add_buffer);
        let text_len = text.len();
        let ghost a = self.added();
        proof {
            lemma_bytes_of_concat(old_add_chars, text@);
            assert(a == old_add + tb);
            lemma_text_extend_add(o, old_add, tb, ps);
            lemma_text_len(o, a, ps);
        }

        let (target_idx, relative_offset) = self.find_piece_idx_from_offset(offset);
        let target_piece = self.pieces[target_idx];
        assert(piece_in_bounds(o, a, ps[target_idx as int]));
        let (left_piece, middle_piece, right_piece) = self.split_piece(
            target_piece,
            relative_offset,
            text_len_before_add,
            text_len,
        );
        let ghost pb = piece_bytes(o, a, target_piece);
        let ghost bl = piece_bytes(o, a, left_piece);
        let ghost bm = piece_bytes(o, a, middle_piece);
        let ghost br = piece_bytes(o, a, right_piece);
        assert(bl =~= pb.take(relative_offset as int));
        assert(br =~= pb.skip(relative_offset as int));
        assert(bm =~= tb);

        // The split parts, leaving out the empty ones.
        let mut parts: Vec<Piece> = Vec::new();
        assert(pieces_text(o, a, parts@) =~= Seq::<u8>::empty());
        if left_piece.length > 0 {
            proof { lemma_text_push(o, a, parts@, left_piece); }
            parts.push(left_piece);
        }
        assert(pieces_text(o, a, parts@) =~= bl);
        proof { lemma_text_push(o, a, parts@, middle_piece); }
        parts.push(middle_piece);
        assert(pieces_text(o, a, parts@) =~= bl + bm);
        if right_piece.length > 0 {
            proof { lemma_text_push(o, a, parts@, right_piece); }
            parts.push(right_piece);
        }
        assert(pieces_text(o, a, parts@) =~= bl + bm + br);
        assert(pieces_in_bounds(o, a, parts@));
        assert(parts@ =~= keep_if_nonempty(left_piece) + seq![middle_piece] + keep_if_nonempty(right_piece));

        let new_pieces = replace_piece(&self.pieces, target_idx, &parts);
        assert(new_pieces@ =~= spec_insert_pieces(ps, offset as int, old_add.len() as int, tb.len() as int));
        proof {
            lemma_insert_result(o, a, ps, target_idx as int, relative_offset as int, parts@, offset as int, tb);
        }
        assert(pieces_in_bounds(o, a, new_pieces@)) by {
            lemma_replace_text(o, a, ps, target_idx as int, parts@);
        }
        proof {
            if old(self).readable() && (offset > s.len() || is_char_boundary(s, offset as int)) {
                assert(pieces_on_boundaries(o, a, new_pieces@)) by {
                    lemma_bytes_of_valid(self.original_buffer@);
                    lemma_bytes_of_valid(old_add_chars);
                    lemma_bytes_of_valid(text@);
                    lemma_text_len(o, old_add, ps);
                    lemma_insert_boundaries(
                        o,
                        old_add,
                        tb,
                        ps,
                        target_idx as int,
                        relative_offset as int,
                        offset as int,
                        left_piece,
                        middle_piece,
                        right_piece,
                    );
                    assert forall|k: int| 0 <= k < parts@.len() implies piece_on_boundaries(o, a, #[trigger] parts@[k]) by {
                        assert(parts@[k] == left_piece || parts@[k] == middle_piece || parts@[k] == right_piece);
                    }
                    lemma_replace_boundaries(o, a, ps, target_idx as int, parts@);
                }
            }
        }
        self.pieces = new_pieces;
    }
}

impl PieceTable {
    /// The buffer a piece refers to, as a string slice.
    fn buffer_str(&self, id: BufferID) -> (b: &str)
        ensures
            bytes_of(b@) == buffer_of(self.original(), self.added(), id),
    {
        match id {
            BufferID::Original => self.original_buffer.as_str(),
            BufferID::Add => self.add_buffer.as_str(),
        }
    }

    /// Reads out the whole text by concatenating the bytes of the pieces in
    /// order. Each non-empty piece is cut out of its buffer as a string slice,
    /// so its ends must be character boundaries.
    pub fn get_text(&self) -> (text: String)
        requires
            self.wf(),
            self.readable(),
        ensures
            bytes_of(text@) == self@,
    {
        let ghost o = self.original();
        let ghost a = self.added();
        let ghost ps = self.pieces@;
        let mut text = String::new();
        proof {
            lemma_bytes_of_empty(text@);
            assert(ps.take(0) =~= Seq::<Piece>::empty());
        }
        let n = self.pieces.len();
        let mut i: usize = 0;
        while i < n
            invariant
                n == ps.len(),
                ps == self.pieces@,
                o == self.original(),
                a == self.added(),
                self.wf(),
                self.readable(),
                i <= n,
                bytes_of(text@) =~= pieces_text(o, a, ps.take(i as int)),
            decreases n - i,
        {
            let piece = self.pieces[i];
            proof {
                assert(ps.take(i + 1) =~= ps.take(i as int).push(piece));
                lemma_text_push(o, a, ps.take(i as int), piece);
                assert(piece_in_bounds(o, a, ps[i as int]));
                assert(piece_on_boundaries(o, a, ps[i as int]));
            }
            if piece.length != 0 {
                let buf = self.buffer_str(piece.buffer_id);
                let ghost b = bytes_of(buf@);
                proof {
                    lemma_bytes_of_valid(buf@);
                    lemma_boundary_in_suffix(b, piece.start_idx as int, piece.start_idx + piece.length);
                }
                let (_, rest) = buf.split_at(piece.start_idx);
                let (slice, _) = rest.split_at(piece.length);
                proof {
                    assert(bytes_of(slice@) =~= piece_bytes(o, a, piece));
                    lemma_bytes_of_concat(text@, slice@);
                }
                text.append(slice);
            } else {
                assert(piece_bytes(o, a, piece) =~= Seq::<u8>::empty());
            }
            i = i + 1;
        }
        assert(ps.take(n as int) =~= ps);
        text
    }

    /// Whether the text can be read out: every non-empty piece starts and
    /// ends on a character boundary of its buffer.
    pub fn is_readable(&self) -> (r: bool)
        requires
            self.wf(),
        ensures
            r == self.readable(),
    {
        let ghost o = self.original();
        let ghost a = self.added();
        let ghost ps = self.pieces@;
        let n = self.pieces.len();
        let mut i: usize = 0;
        while i < n
            invariant
                n == ps.len(),
                ps == self.pieces@,
                o == self.original(),
                a == self.added(),
                self.wf(),
                i <= n,
                forall|k: int| 0 <= k < i ==> piece_on_boundaries(o, a, #[trigger] ps[k]),
            decreases n - i,
        {
            let piece = self.pieces[i];
            assert(piece_in_bounds(o, a, ps[i as int]));
            if piece.length != 0 {
                let buf = self.buffer_str(piece.buffer_id);
                if !buf.is_char_boundary(piece.start_idx)
                    || !buf.is_char_boundary(piece.start_idx + piece.length) {
                    assert(!piece_on_boundaries(o, a, ps[i as int]));
                    return false;
                }
            }
            i = i + 1;
        }
        true
    }
}

/// Bytes still to pass over before the deleted range begins, once `n` bytes
/// of the text have been passed.
pub open spec fn skip_left(offset: int, n: int) -> int {
    if offset >= n { offset - n } else { 0 }
}

/// Bytes of the deleted range still ahead, once `n` bytes of the text have
/// been passed.
pub open spec fn delete_left(offset: int, length: int, n: int) -> int {
    if offset + length <= n {
        0
    } else if offset >= n {
        length
    } else {
        offset + length - n
    }
}

/// How many leading bytes of a piece of length `len` survive.
pub open spec fn keep_before(to_skip: int, len: int) -> int {
    if to_skip >= len { len } else { to_skip }
}

/// From where on the bytes of a piece of length `len` survive again.
pub open spec fn keep_from(to_skip: int, to_delete: int, len: int) -> int {
    if to_skip >= len {
        len
    } else if to_delete >= len - to_skip {
        len
    } else {
        to_skip + to_delete
    }
}

/// Deleting from a text that ends in `b`: the deletion from the text before
/// `b`, followed by what survives of `b`.
proof fn lemma_delete_step(s: Seq<u8>, b: Seq<u8>, offset: int, length: int)
    requires
        offset >= 0,
        length >= 0,
    ensures
        ({
            let ts = skip_left(offset, s.len() as int);
            let td = delete_left(offset, length, s.len() as int);
            let x = keep_before(ts, b.len() as int);
            let y = keep_from(ts, td, b.len() as int);
            &&& 0 <= x <= y <= b.len()
            &&& spec_delete(s + b, offset, length) == spec_delete(s, offset, length) + b.take(x) + b.skip(y)
            &&& skip_left(offset, (s.len() + b.len()) as int) == ts - x
            &&& delete_left(offset, length, (s.len() + b.len()) as int) == td - (y - x)
        }),
{
    let n = s.len() as int;
    let m = b.len() as int;
    let ts = skip_left(offset, n);
    let td = delete_left(offset, length, n);
    let x = keep_before(ts, m);
    let y = keep_from(ts, td, m);
    let sb = s + b;
    let lhs = spec_delete(sb, offset, length);
    let rhs = spec_delete(s, offset, length) + b.take(x) + b.skip(y);
    if offset >= n + m {
        assert(lhs =~= sb);
        assert(rhs =~= sb);
    } else if offset >= n {
        if offset + length <= n + m {
            assert(lhs =~= s + b.take(offset - n) + b.skip(offset + length - n));
            assert(rhs =~= s + b.take(offset - n) + b.skip(offset + length - n));
        } else {
            assert(lhs =~= s + b.take(offset - n));
            assert(rhs =~= s + b.take(offset - n));
        }
    } else if offset + length <= n {
        assert(lhs =~= s.take(offset) + s.skip(offset + length) + b);
        assert(rhs =~= s.take(offset) + s.skip(offset + length) + b);
    } else if offset + length <= n + m {
        assert(lhs =~= s.take(offset) + b.skip(offset + length - n));
        assert(rhs =~= s.take(offset) + b.skip(offset + length - n));
    } else {
        assert(lhs =~= s.take(offset));
        assert(rhs =~= s.take(offset));
    }
}

/// Where a piece is cut by a deletion strictly inside it, the cut lies at
/// the start or at the end of the deleted range.
proof fn lemma_delete_cut_positions(offset: int, length: int, n: int, len: int)
    requires
        offset >= 0,
        length >= 0,
        n >= 0,
    ensures
        ({
            let ts = skip_left(offset, n);
            let td = delete_left(offset, length, n);
            let x = keep_before(ts, len);
            let y = keep_from(ts, td, len);
            &&& 0 < x < len ==> n + x == offset
            &&& 0 < y < len ==> n + y == offset + length
        }),
{
}

/// When the deleted range starts and ends on character boundaries of the
/// text, what is left of piece `i` can be read as string slices.
proof fn lemma_delete_boundaries(
    o: Seq<u8>,
    a: Seq<u8>,
    ps: Seq<Piece>,
    i: int,
    offset: int,
    length: int,
    left: Piece,
    right: Piece,
)
    requires
        valid_utf8(o),
        valid_utf8(a),
        pieces_in_bounds(o, a, ps),
        pieces_on_boundaries(o, a, ps),
        0 <= i < ps.len(),
        offset >= 0,
        length >= 0,
        ({
            let n = total_length(ps.take(i));
            let p = ps[i];
            let ts = skip_left(offset, n);
            let td = delete_left(offset, length, n);
            let x = keep_before(ts, p.length as int);
            let y = keep_from(ts, td, p.length as int);
            &&& left == (Piece { buffer_id: p.buffer_id, start_idx: p.start_idx, length: x as usize })
            &&& right == (Piece {
                buffer_id: p.buffer_id,
                start_idx: (p.start_idx + y) as usize,
                length: (p.length - y) as usize,
            })
        }),
        is_char_boundary(
            pieces_text(o, a, ps),
            clamp_to(offset, pieces_text(o, a, ps).len() as int),
        ),
        is_char_boundary(
            pieces_text(o, a, ps),
            clamp_to(offset + length, pieces_text(o, a, ps).len() as int),
        ),
        o.len() <= usize::MAX,
        a.len() <= usize::MAX,
    ensures
        piece_on_boundaries(o, a, left),
        piece_on_boundaries(o, a, right),
{
    let n = total_length(ps.take(i));
    let p = ps[i];
    lemma_prefix_length(ps, i + 1);
    lemma_prefix_length(ps, i);
    lemma_delete_cut_positions(offset, length, n, p.length as int);
    lemma_text_len(o, a, ps);
    lemma_prefix_step(ps, i);
    assert(piece_in_bounds(o, a, p));
    assert(piece_on_boundaries(o, a, p));
    let ts = skip_left(offset, n);
    let td = delete_left(offset, length, n);
    let x = keep_before(ts, p.length as int);
    let y = keep_from(ts, td, p.length as int);
    if 0 < x < p.length {
        lemma_cut_boundary(o, a, ps, i, x);
    }
    if 0 < y < p.length {
        lemma_cut_boundary(o, a, ps, i, y);
    }
}

/// One step of the deletion: what is left of piece `i`, followed by what is
/// left of the pieces after it.
proof fn lemma_delete_pieces_step(ps: Seq<Piece>, i: int, ts: int, td: int, np: Seq<Piece>)
    requires
        0 <= i < ps.len(),
    ensures
        ({
            let p = ps[i];
            let x = keep_before(ts, p.length as int);
            let y = keep_from(ts, td, p.length as int);
            let left = Piece { buffer_id: p.buffer_id, start_idx: p.start_idx, length: x as usize };
            let right = Piece {
                buffer_id: p.buffer_id,
                start_idx: (p.start_idx + y) as usize,
                length: (p.length - y) as usize,
            };
            np + keep_if_nonempty(left) + keep_if_nonempty(right) + delete_pieces_from(
                ps.skip(i + 1),
                ts - x,
                td - (y - x),
            ) == np + delete_pieces_from(ps.skip(i), ts, td)
        }),
{
    let rest = ps.skip(i);
    assert(rest[0] == ps[i]);
    assert(rest.drop_first() =~= ps.skip(i + 1));
    let p = ps[i];
    let x = keep_before(ts, p.length as int);
    let y = keep_from(ts, td, p.length as int);
    let left = Piece { buffer_id: p.buffer_id, start_idx: p.start_idx, length: x as usize };
    let right = Piece {
        buffer_id: p.buffer_id,
        start_idx: (p.start_idx + y) as usize,
        length: (p.length - y) as usize,
    };
    assert(np + keep_if_nonempty(left) + keep_if_nonempty(right) + delete_pieces_from(ps.skip(i + 1), ts - x, td - (y - x))
        =~= np + delete_pieces_from(rest, ts, td));
}

impl PieceTable {
    /// Deletes `length` bytes from `offset`: every piece is cut down to what
    /// lies outside the deleted range. The part of the range past the end of
    /// the text is ignored. Neither buffer changes.
    #[verifier::spinoff_prover]
    pub fn delete(&mut self, offset: usize, length: usize)
        requires
            old(self).wf(),
        ensures
            final(self).wf(),
            final(self)@ == spec_delete(old(self)@, offset as int, length as int),
            final(self).original() == old(self).original(),
            final(self).added() == old(self).added(),
            old(self).readable() && is_char_boundary(
                old(self)@,
                clamp_to(offset as int, old(self)@.len() as int),
            ) && is_char_boundary(old(self)@, clamp_to(offset + length, old(self)@.len() as int))
                ==> final(self).readable(),
            final(self).piece_list() == spec_delete_pieces(old(self).piece_list(), offset as int, length as int),
    {
        let ghost o = self.original();
        let ghost a = self.added();
        let ghost ps = self.pieces@;
        let ghost s = self@;
        let ghost cut_on_boundaries = self.readable() && is_char_boundary(
            s,
            clamp_to(offset as int, s.len() as int),
        ) && is_char_boundary(s, clamp_to(offset + length, s.len() as int));
        proof {
            lemma_bytes_of_valid(self.original_buffer@);
            lemma_bytes_of_valid(self.add_buffer@);
        }
        let mut new_pieces: Vec<Piece> = Vec::new();
        let mut to_skip: usize = offset;
        let mut to_delete: usize = length;
        proof {
            assert(ps.take(0) =~= Seq::<Piece>::empty());
            assert(spec_delete(Seq::<u8>::empty(), offset as int, length as int) =~= Seq::<u8>::empty());
            assert(ps.skip(0) =~= ps);
            assert(new_pieces@ + delete_pieces_from(ps, offset as int, length as int) =~= delete_pieces_from(ps, offset as int, length as int));
        }
        let n = self.pieces.len();
        let mut i: usize = 0;
        while i < n
            invariant
                n == ps.len(),
                ps == self.pieces@,
                o == self.original(),
                a == self.added(),
                self.wf(),
                i <= n,
                to_skip == skip_left(offset as int, pieces_text(o, a, ps.take(i as int)).len() as int),
                to_delete == delete_left(
                    offset as int,
                    length as int,
                    pieces_text(o, a, ps.take(i as int)).len() as int,
                ),
                pieces_text(o, a, new_pieces@) == spec_delete(
                    pieces_text(o, a, ps.take(i as int)),
                    offset as int,
                    length as int,
                ),
                pieces_in_bounds(o, a, new_pieces@),
                s == pieces_text(o, a, ps),
                valid_utf8(o),
                valid_utf8(a),
                cut_on_boundaries ==> self.readable(),
                cut_on_boundaries ==> is_char_boundary(s, clamp_to(offset as int, s.len() as int)),
                cut_on_boundaries ==> is_char_boundary(s, clamp_to(offset + length, s.len() as int)),
                cut_on_boundaries ==> pieces_on_boundaries(o, a, new_pieces@),
                new_pieces@ + delete_pieces_from(ps.skip(i as int), to_skip as int, to_delete as int)
                    == delete_pieces_from(ps, offset as int, length as int),
            decreases n - i,
        {
            let piece = self.pieces[i];
            let len = piece.length;
            let ghost prefix = pieces_text(o, a, ps.take(i as int));
            let ghost b = piece_bytes(o, a, piece);
            proof {
                assert(piece_in_bounds(o, a, ps[i as int]));
                assert(ps.take(i + 1) =~= ps.take(i as int).push(piece));
                lemma_text_push(o, a, ps.take(i as int), piece);
                lemma_delete_step(prefix, b, offset as int, length as int);
            }
            let before = if to_skip >= len { len } else { to_skip };
            let from = if to_skip >= len {
                len
            } else if to_delete >= len - to_skip {
                len
            } else {
                to_skip + to_delete
            };
            let ghost left_piece = Piece { buffer_id: piece.buffer_id, start_idx: piece.start_idx, length: before };
            let ghost right_piece = Piece {
                buffer_id: piece.buffer_id,
                start_idx: (piece.start_idx + from) as usize,
                length: (len - from) as usize,
            };
            proof {
                if cut_on_boundaries {
                    lemma_in_bounds_take(o, a, ps, i as int);
                    lemma_text_len(o, a, ps.take(i as int));
                    lemma_delete_boundaries(o, a, ps, i as int, offset as int, length as int, left_piece, right_piece);
                }
            }
            let ghost np = new_pieces@;
            if before > 0 {
                let left = Piece { buffer_id: piece.buffer_id, start_idx: piece.start_idx, length: before };
                proof {
                    lemma_text_push(o, a, new_pieces@, left);
                    assert(piece_bytes(o, a, left) =~= b.take(before as int));
                }
                new_pieces.push(left);
            } else {
                assert(b.take(before as int) =~= Seq::<u8>::empty());
            }
            assert(pieces_text(o, a, new_pieces@) =~= pieces_text(o, a, np) + b.take(before as int));
            let ghost np2 = new_pieces@;
            if from < len {
                let right = Piece {
                    buffer_id: piece.buffer_id,
                    start_idx: piece.start_idx + from,
                    length: len - from,
                };
                proof {
                    lemma_text_push(o, a, new_pieces@, right);
                    assert(piece_bytes(o, a, right) =~= b.skip(from as int));
                }
                new_pieces.push(right);
            } else {
                assert(b.skip(from as int) =~= Seq::<u8>::empty());
            }
            assert(pieces_text(o, a, new_pieces@) =~= pieces_text(o, a, np2) + b.skip(from as int));
            assert(pieces_in_bounds(o, a, new_pieces@)) by {
                assert forall|k: int| 0 <= k < new_pieces@.len() implies piece_in_bounds(o, a, #[trigger] new_pieces@[k]) by {
                    if k < np.len() {
                        assert(new_pieces@[k] == np[k]);
                    }
                }
            }
            assert(cut_on_boundaries ==> pieces_on_boundaries(o, a, new_pieces@)) by {
                if cut_on_boundaries {
                    assert forall|k: int| 0 <= k < new_pieces@.len() implies piece_on_boundaries(o, a, #[trigger] new_pieces@[k]) by {
                        if k < np.len() {
                            assert(new_pieces@[k] == np[k]);
                        } else {
                            assert(new_pieces@[k] == left_piece || new_pieces@[k] == right_piece);
                        }
                    }
                }
            }
            assert(new_pieces@ + delete_pieces_from(ps.skip(i + 1), to_skip - before, to_delete - (from - before))
                == np + delete_pieces_from(ps.skip(i as int), to_skip as int, to_delete as int)) by {
                assert(new_pieces@ =~= np + keep_if_nonempty(left_piece) + keep_if_nonempty(right_piece));
                lemma_delete_pieces_step(ps, i as int, to_skip as int, to_delete as int, np);
            }
            to_delete = to_delete - (from - before);
            to_skip = to_skip - before;
            i = i + 1;
        }
        proof {
            assert(ps.take(n as int) =~= ps);
            assert(ps.skip(n as int) =~= Seq::<Piece>::empty());
            assert(new_pieces@ =~= new_pieces@ + delete_pieces_from(ps.skip(n as int), to_skip as int, to_delete as int));
        }
        if new_pieces.len() == 0 {
            let empty = Piece { buffer_id: BufferID::Original, start_idx: 0, length: 0 };
            proof {
                lemma_text_push(o, a, new_pieces@, empty);
                assert(piece_bytes(o, a, empty) =~= Seq::<u8>::empty());
                assert(pieces_text(o, a, new_pieces@) =~= Seq::<u8>::empty());
            }
            new_pieces.push(empty);
            assert(pieces_in_bounds(o, a, new_pieces@)) by {
                assert forall|k: int| 0 <= k < new_pieces@.len() implies piece_in_bounds(o, a, #[trigger] new_pieces@[k]) by {
                    assert(k == 0);
                }
            }
        }
        self.pieces = new_pieces;
    }
}

/// The text of a readable table is valid UTF-8.
pub proof fn lemma_readable_text_valid(pt: &PieceTable)
    requires
        pt.wf(),
        pt.readable(),
    ensures
        valid_utf8(pt@),
{
    lemma_bytes_of_valid(pt.original_buffer@);
    lemma_bytes_of_valid(pt.add_buffer@);
    lemma_text_valid(pt.original(), pt.added(), pt.piece_list());
}

/// Deleting what was just inserted gives back the text before the insertion:
/// the inserted bytes sit at `offset`, or at the front when `offset` was
/// past the end.
pub proof fn law_delete_undoes_insert(s: Seq<u8>, offset: int, t: Seq<u8>)
    requires
        offset >= 0,
    ensures
        offset <= s.len() ==> spec_delete(spec_insert(s, offset, t), offset, t.len() as int) == s,
        offset > s.len() ==> spec_delete(spec_insert(s, offset, t), 0, t.len() as int) == s,
{
    if t.len() == 0 {
        assert(s.take(clamp_to(offset, s.len() as int)) + s.skip(clamp_to(offset, s.len() as int)) =~= s);
        assert(s.take(0) + s.skip(0) =~= s);
    } else if offset <= s.len() {
        let r = spec_insert(s, offset, t);
        assert(r.take(offset) + r.skip(offset + t.len()) =~= s);
    } else {
        let r = spec_insert(s, offset, t);
        assert(r.take(0) + r.skip(t.len() as int) =~= s);
    }
}

/// Inserting makes the text longer by exactly the inserted bytes, and
/// deleting makes it shorter by the part of the range inside the text.
pub proof fn law_edit_lengths(s: Seq<u8>, offset: int, length: int, t: Seq<u8>)
    requires
        offset >= 0,
        length >= 0,
    ensures
        spec_insert(s, offset, t).len() == s.len() + t.len(),
        spec_delete(s, offset, length).len() == s.len() - (clamp_to(offset + length, s.len() as int)
            - clamp_to(offset, s.len() as int)),
{
}

/// Reading out a table gives the string whose UTF-8 bytes are its text; so
/// a table just made from a string reads out as that very string.
pub proof fn law_read_back(pt: &PieceTable, text: Seq<char>, read: Seq<char>)
    requires
        pt@ == bytes_of(text),
        bytes_of(read) == pt@,
    ensures
        read == text,
{
    lemma_bytes_of_injective(read, text);
}

/// An insertion within the text keeps the bytes before the offset, puts
/// `t` right at the offset, and moves the rest up by the length of `t`.
pub proof fn law_insert_places_text(s: Seq<u8>, offset: int, t: Seq<u8>)
    requires
        0 <= offset <= s.len(),
    ensures
        spec_insert(s, offset, t).take(offset) == s.take(offset),
        spec_insert(s, offset, t).subrange(offset, offset + t.len()) == t,
        spec_insert(s, offset, t).skip(offset + t.len()) == s.skip(offset),
{
    let r = spec_insert(s, offset, t);
    if t.len() == 0 {
        assert(r.subrange(offset, offset) =~= t);
    } else {
        assert(r.take(offset) =~= s.take(offset));
        assert(r.subrange(offset, offset + t.len()) =~= t);
        assert(r.skip(offset + t.len()) =~= s.skip(offset));
    }
}

/// A deletion keeps the bytes before the range and moves the bytes after it
/// down to where the range started.
pub proof fn law_delete_removes_range(s: Seq<u8>, offset: int, length: int)
    requires
        0 <= offset,
        0 <= length,
        offset + length <= s.len(),
    ensures
        spec_delete(s, offset, length).len() == s.len() - length,
        forall|j: int| 0 <= j < offset ==> spec_delete(s, offset, length)[j] == s[j],
        forall|j: int| offset <= j < s.len() - length ==> spec_delete(s, offset, length)[j] == s[j + length],
{
}

/// The search from piece `i`, when no piece before `i` reaches `offset`.
proof fn lemma_find_from_first(ps: Seq<Piece>, offset: int, i: int)
    requires
        0 <= i <= ps.len(),
        ps.len() >= 1,
        offset >= 0,
        forall|j: int| 0 <= j < i ==> total_length(#[trigger] ps.take(j + 1)) < offset,
    ensures
        ({
            let (k, rel) = find_from(ps, offset, i);
            &&& offset <= total_length(ps) ==> {
                &&& 0 <= k < ps.len()
                &&& total_length(ps.take(k)) + rel == offset
                &&& 0 <= rel <= ps[k].length
                &&& forall|j: int| 0 <= j < k ==> total_length(#[trigger] ps.take(j + 1)) < offset
            }
            &&& offset > total_length(ps) ==> k == 0 && rel == 0
        }),
    decreases ps.len() - i,
{
    if i < ps.len() {
        lemma_prefix_step(ps, i);
        lemma_prefix_length(ps, i + 1);
        if total_length(ps.take(i + 1)) < offset {
            lemma_find_from_first(ps, offset, i + 1);
        } else {
            lemma_prefix_length(ps, i);
            if i > 0 {
                assert(total_length(ps.take((i - 1) + 1)) < offset);
            } else {
                assert(ps.take(0) =~= Seq::<Piece>::empty());
            }
        }
    } else {
        assert(ps.take(ps.len() as int) =~= ps);
        assert(total_length(ps.take((ps.len() - 1) + 1)) < offset);
    }
}

/// The piece that holds an offset within the text is the first piece that
/// ends at or after it, and the offset within that piece is what is left of
/// the offset after the pieces before it; an offset past the end is taken
/// as offset zero in the first piece.
pub proof fn law_find_piece(ps: Seq<Piece>, offset: int)
    requires
        ps.len() >= 1,
        offset >= 0,
    ensures
        ({
            let (k, rel) = find_piece(ps, offset);
            &&& offset <= total_length(ps) ==> {
                &&& 0 <= k < ps.len()
                &&& total_length(ps.take(k)) + rel == offset
                &&& 0 <= rel <= ps[k].length
                &&& forall|j: int| 0 <= j < k ==> total_length(#[trigger] ps.take(j + 1)) < offset
            }
            &&& offset > total_length(ps) ==> k == 0 && rel == 0
        }),
{
    lemma_find_from_first(ps, offset, 0);
}

/// What is left of the pieces after a deletion holds no empty piece.
proof fn lemma_delete_pieces_nonempty(ps: Seq<Piece>, ts: int, td: int)
    ensures
        forall|k: int|
            0 <= k < delete_pieces_from(ps, ts, td).len() ==> (#[trigger] delete_pieces_from(ps, ts, td)[k]).length
                > 0,
    decreases ps.len(),
{
    if ps.len() > 0 {
        let p = ps[0];
        let x = keep_before(ts, p.length as int);
        let y = keep_from(ts, td, p.length as int);
        lemma_delete_pieces_nonempty(ps.drop_first(), ts - x, td - (y - x));
        let l = keep_if_nonempty(Piece { buffer_id: p.buffer_id, start_idx: p.start_idx, length: x as usize });
        let r = keep_if_nonempty(Piece {
            buffer_id: p.buffer_id,
            start_idx: (p.start_idx + y) as usize,
            length: (p.length - y) as usize,
        });
        let rest = delete_pieces_from(ps.drop_first(), ts - x, td - (y - x));
        let all = delete_pieces_from(ps, ts, td);
        assert(all == l + r + rest);
        assert forall|k: int| 0 <= k < all.len() implies (#[trigger] all[k]).length > 0 by {
            if k < l.len() {
                assert(all[k] == l[k]);
            } else if k < l.len() + r.len() {
                assert(all[k] == r[k - l.len()]);
            } else {
                assert(all[k] == rest[k - l.len() - r.len()]);
            }
        }
    }
}

/// A deletion leaves no empty piece, unless it leaves nothing at all: then
/// the one empty piece of an empty text.
pub proof fn law_delete_leaves_no_empty_piece(ps: Seq<Piece>, offset: int, length: int)
    ensures
        spec_delete_pieces(ps, offset, length) == seq![Piece { buffer_id: BufferID::Original, start_idx: 0, length: 0 }]
            || forall|k: int|
            0 <= k < spec_delete_pieces(ps, offset, length).len() ==> (#[trigger] spec_delete_pieces(
                ps,
                offset,
                length,
            )[k]).length > 0,
{
    lemma_delete_pieces_nonempty(ps, offset, length);
}

} // verus!
