//! The editor state: the text buffer, the selections with the main one that
//! holds the cursor, and the modal state machine. The editor applies each
//! request of the user interface to this state and describes the state for
//! rendering.

use vstd::prelude::*;
use vstd::utf8::*;
use crate::encoding::{bytes_of, is_ascii_bytes, lemma_ascii_boundaries, lemma_bytes_of_valid, lemma_cut_keeps_boundary, lemma_insert_keeps_boundary};
use crate::modal::{mode_after, EditorAction, Mode, StateMachine};
use crate::piece_table::{clamp_to, lemma_readable_text_valid, spec_delete, spec_insert, PieceTable};
use crate::rpc::{RpcRequest, RpcResponse};
use crate::selection::Selection;

verus! {

/// The editor state.
pub struct Editor {
    buffer: PieceTable,
    selections: Vec<Selection>,
    main_selection_idx: usize,
    fsm: StateMachine,
}

// ---------------------------------------------------------------------
// What each editing step does to the text and the main selection.
// ---------------------------------------------------------------------

/// A selection that is a single point.
pub open spec fn point_at(position: int) -> Selection {
    Selection { anchor: position as usize, head: position as usize }
}

/// Typing `t`: a non-empty selection is deleted first, then `t` goes in at
/// the start of the selection and the cursor lands right after it.
pub open spec fn spec_insert_text(text: Seq<u8>, sel: Selection, t: Seq<u8>) -> (Seq<u8>, Selection) {
    let start = sel.start() as int;
    let end = sel.end() as int;
    let cleared = if start != end { spec_delete(text, start, end - start) } else { text };
    (spec_insert(cleared, start, t), point_at(start + t.len()))
}

/// Backspace: a non-empty selection is deleted; otherwise the byte before
/// the cursor is deleted and the cursor steps back, unless it is at the
/// start.
pub open spec fn spec_delete_backwards(text: Seq<u8>, sel: Selection) -> (Seq<u8>, Selection) {
    let start = sel.start() as int;
    let end = sel.end() as int;
    if start != end {
        (spec_delete(text, start, end - start), point_at(start))
    } else if sel.head > 0 {
        (spec_delete(text, sel.head - 1, 1), point_at(sel.head - 1))
    } else {
        (text, sel)
    }
}

/// Moving left: the cursor steps back one byte unless it is at the start.
pub open spec fn spec_move_left(sel: Selection) -> Selection {
    if sel.head > 0 { point_at(sel.head - 1) } else { sel }
}

/// Moving right: the cursor steps forward one byte unless it is at the end.
pub open spec fn spec_move_right(text: Seq<u8>, sel: Selection) -> Selection {
    if sel.head < text.len() { point_at(sel.head + 1) } else { sel }
}

/// The text and main selection after a request in the given mode.
pub open spec fn spec_apply(text: Seq<u8>, sel: Selection, mode: Mode, req: RpcRequest) -> (Seq<u8>, Selection) {
    match mode {
        Mode::Normal => match req {
            RpcRequest::Char(c) => if c == 'h' {
                (text, spec_move_left(sel))
            } else if c == 'l' {
                (text, spec_move_right(text, sel))
            } else {
                (text, sel)
            },
            _ => (text, sel),
        },
        Mode::Insert => match req {
            RpcRequest::Char(c) => spec_insert_text(text, sel, bytes_of(seq![c])),
            RpcRequest::Enter => spec_insert_text(text, sel, bytes_of(seq!['\n'])),
            RpcRequest::Backspace => spec_delete_backwards(text, sel),
            _ => (text, sel),
        },
        Mode::Visual => (text, sel),
    }
}

/// The edits and moves of a request land on character boundaries of the
/// text: the range it deletes starts and ends on boundaries, and the cursor
/// it moves lands on one.
pub open spec fn keeps_renderable(text: Seq<u8>, sel: Selection, mode: Mode, req: RpcRequest) -> bool {
    let start = sel.start() as int;
    let end = sel.end() as int;
    match mode {
        Mode::Normal => match req {
            RpcRequest::Char(c) => if c == 'h' {
                is_char_boundary(text, spec_move_left(sel).head as int)
            } else if c == 'l' {
                is_char_boundary(text, spec_move_right(text, sel).head as int)
            } else {
                true
            },
            _ => true,
        },
        Mode::Insert => match req {
            RpcRequest::Char(_) => is_char_boundary(text, start) && is_char_boundary(text, end),
            RpcRequest::Enter => is_char_boundary(text, start) && is_char_boundary(text, end),
            RpcRequest::Backspace => if start != end {
                is_char_boundary(text, start) && is_char_boundary(text, end)
            } else if sel.head > 0 {
                is_char_boundary(text, sel.head - 1)
            } else {
                true
            },
            _ => true,
        },
        Mode::Visual => true,
    }
}

/// How many bytes a request inserts in the given mode.
pub open spec fn request_bytes(mode: Mode, req: RpcRequest) -> int {
    match mode {
        Mode::Insert => match req {
            RpcRequest::Char(c) => bytes_of(seq![c]).len() as int,
            RpcRequest::Enter => bytes_of(seq!['\n']).len() as int,
            _ => 0,
        },
        _ => 0,
    }
}

// ---------------------------------------------------------------------
// Cursor coordinates.
// ---------------------------------------------------------------------

/// The line feed byte.
pub open spec fn is_newline(b: u8) -> bool {
    b == 10u8
}

/// The number of line feeds in `s`: the line the end of `s` is on.
pub open spec fn newline_count(s: Seq<u8>) -> nat
    decreases s.len(),
{
    if s.len() == 0 {
        0
    } else {
        newline_count(s.drop_last()) + if is_newline(s.last()) { 1nat } else { 0nat }
    }
}

/// The number of bytes after the last line feed of `s`: the column the end
/// of `s` is at.
pub open spec fn column_of(s: Seq<u8>) -> nat
    decreases s.len(),
{
    if s.len() == 0 {
        0
    } else if is_newline(s.last()) {
        0
    } else {
        column_of(s.drop_last()) + 1
    }
}

/// The column and line of byte offset `head` (clamped to the text).
pub open spec fn cursor_coords(text: Seq<u8>, head: int) -> (nat, nat) {
    let offset = if head <= text.len() { head } else { text.len() as int };
    (column_of(text.take(offset)), newline_count(text.take(offset)))
}

/// The name of a mode as shown to the user.
pub open spec fn mode_label(mode: Mode) -> Seq<char> {
    match mode {
        Mode::Normal => "NORMAL"@,
        Mode::Insert => "INSERT"@,
        Mode::Visual => "VISUAL"@,
    }
}

impl Editor {
    /// The text, as UTF-8 bytes.
    pub closed spec fn text(&self) -> Seq<u8> {
        self.buffer@
    }

    /// All selections, in order.
    pub closed spec fn selection_list(&self) -> Seq<Selection> {
        self.selections@
    }

    /// The index of the main selection in the list.
    pub closed spec fn main_index(&self) -> int {
        self.main_selection_idx as int
    }

    /// The main selection, which holds the cursor.
    pub open spec fn cursor(&self) -> Selection {
        self.selection_list()[self.main_index()]
    }

    /// The cursor's offset, clamped to the text.
    pub open spec fn cursor_offset(&self) -> int {
        if self.cursor().head <= self.text().len() {
            self.cursor().head as int
        } else {
            self.text().len() as int
        }
    }

    /// The current mode.
    pub closed spec fn mode(&self) -> Mode {
        self.fsm.current_mode
    }

    /// The text buffer can be read out.
    pub closed spec fn readable(&self) -> bool {
        self.buffer.readable()
    }

    /// The buffer is well formed and the main selection exists.
    pub open spec fn indexed(&self) -> bool {
        &&& self.buffer_wf()
        &&& 0 <= self.main_index() < self.selection_list().len()
    }

    /// The text buffer is well formed.
    pub closed spec fn buffer_wf(&self) -> bool {
        self.buffer.wf()
    }

    /// The state is consistent: the buffer is well formed, the main
    /// selection exists and lies within the text, and the text's length fits
    /// in a `usize`.
    pub open spec fn wf(&self) -> bool {
        &&& self.indexed()
        &&& self.cursor().head <= self.text().len()
        &&& self.cursor().anchor <= self.text().len()
        &&& self.text().len() <= usize::MAX
    }

    /// The state can be rendered: the text can be read out and the cursor,
    /// clamped to the text, is on a character boundary.
    pub open spec fn renderable(&self) -> bool {
        &&& self.readable()
        &&& is_char_boundary(self.text(), self.cursor_offset())
    }
}

impl Editor {
    /// An editor holding `initial_text`, with the cursor at the start and the
    /// state machine in normal mode.
    pub fn new(initial_text: String) -> (e: Self)
        ensures
            e.wf(),
            e.renderable(),
            e.text() == bytes_of(initial_text@),
            e.selection_list() == seq![point_at(0)],
            e.main_index() == 0,
            e.cursor() == point_at(0),
            e.mode() == Mode::Normal,
    {
        let e = Self {
            buffer: PieceTable::new(initial_text),
            selections: vec![Selection::point(0)],
            main_selection_idx: 0,
            fsm: StateMachine::new(),
        };
        proof {
            lemma_bytes_of_valid(initial_text@);
            is_char_boundary_start_end_of_seq(e.text());
        }
        e
    }

    /// Types `text`: a non-empty selection is deleted first, then `text` is
    /// inserted at the start of the selection and the cursor moves right
    /// after it.
    fn insert_text(&mut self, text: &str)
        requires
            old(self).wf(),
            old(self).text().len() + bytes_of(text@).len() <= usize::MAX,
        ensures
            final(self).wf(),
            (final(self).text(), final(self).cursor()) == spec_insert_text(
                old(self).text(),
                old(self).cursor(),
                bytes_of(text@),
            ),
            final(self).main_index() == old(self).main_index(),
            final(self).selection_list() == old(self).selection_list().update(
                old(self).main_index(),
                final(self).cursor(),
            ),
            final(self).mode() == old(self).mode(),
            old(self).readable() && is_char_boundary(old(self).text(), old(self).cursor().start() as int)
                && is_char_boundary(old(self).text(), old(self).cursor().end() as int)
                ==> final(self).renderable(),
    {
        let ghost ok = self.readable() && is_char_boundary(self.text(), self.cursor().start() as int)
            && is_char_boundary(self.text(), self.cursor().end() as int);
        let ghost t = self.text();
        proof {
            if ok {
                lemma_readable_text_valid(&self.buffer);
            }
        }
        let idx = self.main_selection_idx;
        let mut sel = self.selections[idx];
        let start = sel.min();
        let end = sel.max();
        if start != end {
            self.buffer.delete(start, end - start);
            sel.anchor = start;
            sel.head = start;
            proof {
                if ok {
                    assert(clamp_to(start as int, t.len() as int) == start);
                    assert(clamp_to(start + (end - start), t.len() as int) == end);
                    lemma_readable_text_valid(&self.buffer);
                    assert(self.buffer@ == t.take(start as int) + t.skip(end as int));
                    lemma_cut_keeps_boundary(t, start as int, end as int);
                }
            }
        }
        let ghost t1 = self.buffer@;
        self.buffer.insert(sel.head, text);
        proof {
            if ok {
                lemma_readable_text_valid(&self.buffer);
                assert(self.buffer@ =~= t1.take(start as int) + bytes_of(text@) + t1.skip(start as int));
                lemma_insert_keeps_boundary(t1, start as int, bytes_of(text@));
            }
        }
        let n = text.len();
        sel.head = sel.head + n;
        sel.anchor = sel.head;
        self.selections.set(idx, sel);
    }

    /// Backspace: a non-empty selection is deleted; otherwise the byte before
    /// the cursor is deleted, unless the cursor is at the start.
    fn delete_backwards(&mut self)
        requires
            old(self).wf(),
        ensures
            final(self).wf(),
            (final(self).text(), final(self).cursor()) == spec_delete_backwards(
                old(self).text(),
                old(self).cursor(),
            ),
            final(self).main_index() == old(self).main_index(),
            final(self).selection_list() == old(self).selection_list().update(
                old(self).main_index(),
                final(self).cursor(),
            ),
            final(self).mode() == old(self).mode(),
            old(self).renderable() && keeps_renderable(
                old(self).text(),
                old(self).cursor(),
                Mode::Insert,
                RpcRequest::Backspace,
            ) ==> final(self).renderable(),
    {
        let ghost ok = self.renderable() && keeps_renderable(
            self.text(),
            self.cursor(),
            Mode::Insert,
            RpcRequest::Backspace,
        );
        let ghost t = self.text();
        proof {
            if ok {
                lemma_readable_text_valid(&self.buffer);
            }
        }
        let idx = self.main_selection_idx;
        let mut sel = self.selections[idx];
        let start = sel.min();
        let end = sel.max();
        if start != end {
            self.buffer.delete(start, end - start);
            sel.anchor = start;
            sel.head = start;
            self.selections.set(idx, sel);
            proof {
                if ok {
                    assert(clamp_to(start as int, t.len() as int) == start);
                    assert(clamp_to(start + (end - start), t.len() as int) == end);
                    lemma_readable_text_valid(&self.buffer);
                    lemma_cut_keeps_boundary(t, start as int, end as int);
                }
            }
        } else if sel.head > 0 {
            let h = sel.head;
            self.buffer.delete(sel.head - 1, 1);
            sel.head = sel.head - 1;
            sel.anchor = sel.head;
            self.selections.set(idx, sel);
            proof {
                if ok {
                    assert(clamp_to(h - 1, t.len() as int) == h - 1);
                    assert(clamp_to(h - 1 + 1, t.len() as int) == h);
                    lemma_readable_text_valid(&self.buffer);
                    lemma_cut_keeps_boundary(t, h - 1, h as int);
                }
            }
        }
    }
}

/// A single character encodes in at most four bytes.
proof fn lemma_char_bytes(c: char)
    ensures
        1 <= bytes_of(seq![c]).len() <= 4,
{
    assert(seq![c].drop_first() =~= Seq::<char>::empty());
    assert(bytes_of(seq![c]) == encode_scalar(c as u32) + encode_utf8(Seq::<char>::empty()));
}

impl Editor {
    /// Handles one request: the state machine picks the action for the
    /// current mode and the editor applies it to the text and the cursor.
    /// Returns `false` for a quit request, which changes nothing, and `true`
    /// otherwise.
    pub fn handle_request(&mut self, req: RpcRequest) -> (running: bool)
        requires
            old(self).wf(),
            old(self).readable(),
            old(self).text().len() + request_bytes(old(self).mode(), req) <= usize::MAX,
        ensures
            final(self).wf(),
            running == !(req is Quit),
            final(self).main_index() == old(self).main_index(),
            final(self).selection_list() == old(self).selection_list().update(
                old(self).main_index(),
                final(self).cursor(),
            ),
            final(self).mode() == mode_after(old(self).mode(), req),
            (final(self).text(), final(self).cursor()) == spec_apply(
                old(self).text(),
                old(self).cursor(),
                old(self).mode(),
                req,
            ),
            old(self).renderable() && keeps_renderable(old(self).text(), old(self).cursor(), old(self).mode(), req)
                ==> final(self).renderable(),
    {
        proof {
            if let RpcRequest::Char(c) = req {
                lemma_char_bytes(c);
            }
            lemma_char_bytes('\n');
        }
        let action = self.fsm.process_input(req);
        match action {
            EditorAction::Quit => {
                return false;
            },
            EditorAction::ChangeMode(_) => {},
            EditorAction::InsertText(text) => self.insert_text(text.as_str()),
            EditorAction::DeleteBackwards => self.delete_backwards(),
            EditorAction::MoveLeft => {
                let idx = self.main_selection_idx;
                let mut sel = self.selections[idx];
                if sel.head > 0 {
                    sel.head = sel.head - 1;
                    sel.anchor = sel.head;
                    self.selections.set(idx, sel);
                }
            },
            EditorAction::MoveRight => {
                let text = self.buffer.get_text();
                let len = text.as_str().len();
                let idx = self.main_selection_idx;
                let mut sel = self.selections[idx];
                if sel.head < len {
                    sel.head = sel.head + 1;
                    sel.anchor = sel.head;
                    self.selections.set(idx, sel);
                }
            },
            EditorAction::DoNothing => {},
        }
        true
    }

    /// The column and line of the cursor: the number of bytes after the last
    /// line feed before the cursor, and the number of line feeds before it.
    fn calculate_cursor_coords(&self) -> (r: (usize, usize))
        requires
            self.indexed(),
            self.renderable(),
        ensures
            r.0 as nat == cursor_coords(self.text(), self.cursor().head as int).0,
            r.1 as nat == cursor_coords(self.text(), self.cursor().head as int).1,
    {
        let text = self.buffer.get_text();
        let bytes = text.as_str().as_bytes();
        let head = self.selections[self.main_selection_idx].head;
        let offset = if head <= bytes.len() { head } else { bytes.len() };
        let ghost t = self.text();
        let mut cursor_x: usize = 0;
        let mut cursor_y: usize = 0;
        let mut i: usize = 0;
        while i < offset
            invariant
                bytes@ == t,
                offset <= bytes@.len(),
                i <= offset,
                cursor_x as nat == column_of(t.take(i as int)),
                cursor_y as nat == newline_count(t.take(i as int)),
                cursor_x <= i,
                cursor_y <= i,
            decreases offset - i,
        {
            proof {
                assert(t.take(i + 1).drop_last() =~= t.take(i as int));
                assert(t.take(i + 1).last() == t[i as int]);
            }
            if bytes[i] == 10u8 {
                cursor_y = cursor_y + 1;
                cursor_x = 0;
            } else {
                cursor_x = cursor_x + 1;
            }
            i = i + 1;
        }
        (cursor_x, cursor_y)
    }

    /// The state to show: the text, the cursor's column and line, and the
    /// name of the mode.
    pub fn broadcast_state(&self) -> (resp: RpcResponse)
        requires
            self.indexed(),
            self.renderable(),
        ensures
            resp matches RpcResponse::Render { text, cursor_x, cursor_y, mode_name } && {
                &&& bytes_of(text@) == self.text()
                &&& cursor_x as nat == cursor_coords(self.text(), self.cursor().head as int).0
                &&& cursor_y as nat == cursor_coords(self.text(), self.cursor().head as int).1
                &&& mode_name@ == mode_label(self.mode())
            },
    {
        let (cursor_x, cursor_y) = self.calculate_cursor_coords();
        let mode_name = match self.fsm.current_mode {
            Mode::Normal => String::from_str("NORMAL"),
            Mode::Insert => String::from_str("INSERT"),
            Mode::Visual => String::from_str("VISUAL"),
        };
        RpcResponse::Render { text: self.buffer.get_text(), cursor_x, cursor_y, mode_name }
    }

    /// Whether the state can be rendered: the text can be read out and the
    /// cursor is on a character boundary.
    pub fn is_renderable(&self) -> (r: bool)
        requires
            self.indexed(),
        ensures
            r == self.renderable(),
    {
        if !self.buffer.is_readable() {
            return false;
        }
        let text = self.buffer.get_text();
        let len = text.as_str().as_bytes().len();
        let head = self.selections[self.main_selection_idx].head;
        let offset = if head <= len { head } else { len };
        text.as_str().is_char_boundary(offset)
    }
}

/// A quit request leaves the text and the cursor as they are, in every
/// mode.
pub proof fn law_quit_changes_nothing(text: Seq<u8>, sel: Selection, mode: Mode)
    ensures
        spec_apply(text, sel, mode, RpcRequest::Quit) == (text, sel),
{
}

/// Backspace right after typing a one-byte character at the cursor gives
/// back the text and the cursor from before.
pub proof fn law_backspace_undoes_typing(text: Seq<u8>, head: int, c: Seq<u8>)
    requires
        0 <= head <= text.len(),
        head + 1 <= usize::MAX,
        c.len() == 1,
    ensures
        ({
            let (typed, sel) = spec_insert_text(text, point_at(head), c);
            spec_delete_backwards(typed, sel) == (text, point_at(head))
        }),
{
    let (typed, sel) = spec_insert_text(text, point_at(head), c);
    assert(typed == text.take(head) + c + text.skip(head));
    assert(typed.take(head) + typed.skip(head + 1) =~= text);
}

/// The cursor's line is the number of line feeds before it, and its column
/// the number of bytes since the last of them; neither exceeds its offset.
pub proof fn law_cursor_coords_bounded(s: Seq<u8>)
    ensures
        column_of(s) <= s.len(),
        newline_count(s) <= s.len(),
        column_of(s) == s.len() <==> newline_count(s) == 0,
    decreases s.len(),
{
    if s.len() > 0 {
        law_cursor_coords_bounded(s.drop_last());
    }
}

/// In ASCII text every edit and move lands on character boundaries, so
/// every request keeps a renderable editor renderable.
pub proof fn law_ascii_text_keeps_renderable(text: Seq<u8>, sel: Selection, mode: Mode, req: RpcRequest)
    requires
        is_ascii_bytes(text),
        sel.anchor <= text.len(),
        sel.head <= text.len(),
    ensures
        keeps_renderable(text, sel, mode, req),
{
    lemma_ascii_boundaries(text);
}

/// In normal mode `h` steps the cursor back one byte, whatever the byte,
/// unless it is at the start; `l` steps it forward one byte, whatever the
/// byte (a line feed too), unless it is at the end; both leave a point and
/// keep the text. Every other key leaves text and cursor alone.
pub proof fn law_normal_mode_moves(text: Seq<u8>, sel: Selection, req: RpcRequest)
    requires
        sel.head <= text.len(),
        text.len() <= usize::MAX,
    ensures
        req == RpcRequest::Char('h') && sel.head > 0 ==> {
            let r = spec_apply(text, sel, Mode::Normal, req);
            &&& r.0 == text
            &&& r.1.head == sel.head - 1
            &&& r.1.anchor == sel.head - 1
        },
        req == RpcRequest::Char('h') && sel.head == 0 ==> spec_apply(text, sel, Mode::Normal, req) == (text, sel),
        req == RpcRequest::Char('l') && sel.head < text.len() ==> {
            let r = spec_apply(text, sel, Mode::Normal, req);
            &&& r.0 == text
            &&& r.1.head == sel.head + 1
            &&& r.1.anchor == sel.head + 1
        },
        req == RpcRequest::Char('l') && sel.head == text.len() ==> spec_apply(text, sel, Mode::Normal, req) == (
            text,
            sel,
        ),
        req != RpcRequest::Char('h') && req != RpcRequest::Char('l') ==> spec_apply(
            text,
            sel,
            Mode::Normal,
            req,
        ) == (text, sel),
{
}

/// Typing `t` replaces the selected bytes by `t` and leaves the cursor as a
/// point right after it: at the selection's start plus the number of bytes
/// of `t`, whatever their number.
pub proof fn law_typing_replaces_selection(text: Seq<u8>, sel: Selection, t: Seq<u8>)
    requires
        sel.head <= text.len(),
        sel.anchor <= text.len(),
        sel.start() + t.len() <= usize::MAX,
    ensures
        spec_insert_text(text, sel, t).0 == text.take(sel.start() as int) + t + text.skip(sel.end() as int),
        spec_insert_text(text, sel, t).1.head == sel.start() + t.len(),
        spec_insert_text(text, sel, t).1.anchor == sel.start() + t.len(),
{
    let start = sel.start() as int;
    let end = sel.end() as int;
    if start != end {
        let cleared = spec_delete(text, start, end - start);
        assert(cleared =~= text.take(start) + text.skip(end));
        if t.len() > 0 {
            assert(spec_insert(cleared, start, t) =~= text.take(start) + t + text.skip(end));
        } else {
            assert(cleared =~= text.take(start) + t + text.skip(end));
        }
    } else {
        if t.len() > 0 {
            assert(spec_insert(text, start, t) =~= text.take(start) + t + text.skip(end));
        } else {
            assert(text =~= text.take(start) + t + text.skip(end));
        }
    }
}

/// In insert mode, any typed character `c`, and Enter as a line feed, goes
/// in at a point cursor, and the cursor moves past all of its bytes.
pub proof fn law_insert_mode_typing(text: Seq<u8>, h: int, c: char)
    requires
        0 <= h <= text.len(),
        h + 4 <= usize::MAX,
    ensures
        ({
            let b = bytes_of(seq![c]);
            let r = spec_apply(text, point_at(h), Mode::Insert, RpcRequest::Char(c));
            &&& r.0 == text.take(h) + b + text.skip(h)
            &&& r.1.head == h + b.len()
            &&& r.1.anchor == h + b.len()
        }),
        ({
            let r = spec_apply(text, point_at(h), Mode::Insert, RpcRequest::Enter);
            &&& r.0 == text.take(h) + seq![10u8] + text.skip(h)
            &&& r.1.head == h + 1
            &&& r.1.anchor == h + 1
        }),
{
    lemma_char_bytes(c);
    lemma_line_feed_bytes();
    law_typing_replaces_selection(text, point_at(h), bytes_of(seq![c]));
    law_typing_replaces_selection(text, point_at(h), bytes_of(seq!['\n']));
}

/// A line feed is the single byte 10.
proof fn lemma_line_feed_bytes()
    ensures
        bytes_of(seq!['\n']) == seq![10u8],
{
    assert(seq!['\n'].drop_first() =~= Seq::<char>::empty());
    assert(('\n' as u32) == 10u32);
    assert((10u32 & 0x7Fu32) as u8 == 10u8) by (bit_vector);
    assert(encode_scalar(10u32) =~= seq![10u8]);
    assert(bytes_of(seq!['\n']) == encode_scalar('\n' as u32) + encode_utf8(Seq::<char>::empty()));
    assert(bytes_of(seq!['\n']) =~= seq![10u8]);
}

/// In insert mode Backspace deletes the selected bytes, or, at a point
/// cursor after the start, the one byte before the cursor, whatever it is,
/// and leaves the cursor as a point where the deletion was; at the start it
/// does nothing.
pub proof fn law_insert_mode_backspace(text: Seq<u8>, sel: Selection)
    requires
        sel.head <= text.len(),
        sel.anchor <= text.len(),
    ensures
        ({
            let r = spec_apply(text, sel, Mode::Insert, RpcRequest::Backspace);
            &&& sel.anchor != sel.head ==> r.0 == text.take(sel.start() as int) + text.skip(sel.end() as int)
                && r.1.head == sel.start() && r.1.anchor == sel.start()
            &&& sel.anchor == sel.head && sel.head > 0 ==> r.0 == text.take(sel.head - 1) + text.skip(
                sel.head as int,
            ) && r.1.head == sel.head - 1 && r.1.anchor == sel.head - 1
            &&& sel.anchor == sel.head && sel.head == 0 ==> r == (text, sel)
        }),
{
    let start = sel.start() as int;
    let end = sel.end() as int;
    if start != end {
        assert(spec_delete(text, start, end - start) =~= text.take(start) + text.skip(end));
    } else if sel.head > 0 {
        assert(spec_delete(text, sel.head - 1, 1) =~= text.take(sel.head - 1) + text.skip(sel.head as int));
    }
}

/// Escape and quit requests, and every request in visual mode, leave the
/// text and the cursor alone.
pub proof fn law_requests_without_edits(text: Seq<u8>, sel: Selection, mode: Mode, req: RpcRequest)
    ensures
        spec_apply(text, sel, mode, RpcRequest::Esc) == (text, sel),
        spec_apply(text, sel, mode, RpcRequest::Quit) == (text, sel),
        spec_apply(text, sel, Mode::Visual, req) == (text, sel),
{
}

/// Appending a byte to the text before the cursor: a line feed starts a new
/// line at column 0, any other byte moves one column right on the same
/// line.
pub proof fn law_coords_push(s: Seq<u8>, b: u8)
    ensures
        b == 10u8 ==> column_of(s.push(b)) == 0 && newline_count(s.push(b)) == newline_count(s) + 1,
        b != 10u8 ==> column_of(s.push(b)) == column_of(s) + 1 && newline_count(s.push(b)) == newline_count(s),
{
    assert(s.push(b).drop_last() =~= s);
}

/// The line feeds in `s` are counted, and the column is the length of the
/// stretch of non-line-feed bytes at the end of `s`.
proof fn lemma_coords_shape(s: Seq<u8>)
    ensures
        newline_count(s) == s.filter(|x: u8| x == 10u8).len(),
        column_of(s) <= s.len(),
        forall|j: int| s.len() - column_of(s) <= j < s.len() ==> s[j] != 10u8,
        column_of(s) < s.len() ==> s[s.len() - column_of(s) - 1] == 10u8,
    decreases s.len(),
{
    let pred = |x: u8| x == 10u8;
    if s.len() == 0 {
        reveal(Seq::filter);
    } else {
        let q = s.drop_last();
        lemma_coords_shape(q);
        assert(q.push(s.last()) =~= s);
        q.lemma_filter_push(s.last(), pred);
        assert forall|j: int| s.len() - column_of(s) <= j < s.len() implies s[j] != 10u8 by {
            if j < s.len() - 1 {
                assert(s[j] == q[j]);
            }
        }
        if column_of(s) < s.len() && !is_newline(s.last()) {
            assert(s[s.len() - column_of(s) - 1] == q[q.len() - column_of(q) - 1]);
        }
    }
}

/// The cursor's line is the number of line feeds before it, and its column
/// the number of bytes between the last of them (or the start) and the
/// cursor, whatever those bytes are; a cursor past the end counts as at the
/// end.
pub proof fn law_cursor_coords(text: Seq<u8>, head: int)
    requires
        head >= 0,
    ensures
        ({
            let off = if head <= text.len() { head } else { text.len() as int };
            let (x, y) = cursor_coords(text, head);
            &&& y == text.take(off).filter(|b: u8| b == 10u8).len()
            &&& x <= off
            &&& forall|j: int| off - x <= j < off ==> text[j] != 10u8
            &&& x < off ==> text[off - x - 1] == 10u8
        }),
{
    let off = if head <= text.len() { head } else { text.len() as int };
    let p = text.take(off);
    lemma_coords_shape(p);
    assert forall|j: int| off - column_of(p) <= j < off implies text[j] != 10u8 by {
        assert(p[j] == text[j]);
    }
    if column_of(p) < off {
        assert(p[off - column_of(p) - 1] == text[off - column_of(p) - 1]);
    }
}

/// The names of the modes as shown to the user.
pub proof fn law_mode_labels()
    ensures
        mode_label(Mode::Normal) == "NORMAL"@,
        mode_label(Mode::Insert) == "INSERT"@,
        mode_label(Mode::Visual) == "VISUAL"@,
{
}

} // verus!
