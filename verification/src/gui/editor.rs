//! The editor's state: the note's text (in a rope buffer with undo and
//! redo, and as a string with its lines), the cursor and the selection,
//! the input method's marked range, and the title and tags of the note,
//! each edited in its own zone.
use vstd::prelude::*;
use std::ops::Range;
use crate::gui::ime::ImeState;
use crate::gui::lines::{byte_line_col, byte_to_line_col, line_col_byte, line_col_defined, line_col_to_byte};
use crate::gui::util::{editor_lines, input_tags, parse_tags_from_input, split_lines, utf16_byte_from, utf16_len};
use crate::rope::Buffer;
use crate::text::{chars_of, dedup, distinct, is_ws, push_all, skip_ws_from, string_from_chars, string_views};
use crate::rope_spec::{chunks, chunks_fit, chunks_ok, cut, delete_leaves, insert_leaves, replace_at, splice};
use crate::utf8len::{blen, char_utf8_len, cidx, clen, is_boundary, lemma_blen_mono, lemma_boundary_split};

verus! {

/// Which part of the note the keyboard edits.
#[derive(Debug, Clone, Copy, PartialEq, Eq, Structural)]
pub enum EditZone {
    Title,
    TagInput,
    Content,
}

/// The title and tags of the note being edited.
#[derive(Debug)]
pub struct NoteHeader {
    pub title: String,
    pub tags: Vec<String>,
}

/// The editor.
pub struct EditorState {
    buffer: Buffer,
    text: String,
    lines: Vec<String>,
    cursor: usize,
    selection: Option<Range<usize>>,
    ime: ImeState,
    dirty: bool,
    header: Option<NoteHeader>,
    tag_input: String,
    tag_cursor: usize,
    zone: EditZone,
    title_cursor: usize,
    dragging: bool,
}

/// Model of [`EditorState`] (the buffer's undo history is given apart).
pub struct EditorView {
    pub text: Seq<char>,
    pub cursor: nat,
    pub selection: Option<(nat, nat)>,
    pub marked: Option<(nat, nat)>,
    pub dirty: bool,
    pub header: Option<(Seq<char>, Seq<Seq<char>>)>,
    pub tag_input: Seq<char>,
    pub tag_cursor: nat,
    pub zone: EditZone,
    pub title_cursor: nat,
    pub dragging: bool,
}

/// The bounds of a range.
pub open spec fn span(r: Range<usize>) -> (nat, nat) {
    (r.start as nat, r.end as nat)
}

/// The bounds of an optional range.
pub open spec fn opt_span(r: Option<Range<usize>>) -> Option<(nat, nat)> {
    match r {
        Some(x) => Some(span(x)),
        None => None,
    }
}

/// Model of a header.
pub open spec fn header_view(h: Option<NoteHeader>) -> Option<(Seq<char>, Seq<Seq<char>>)> {
    match h {
        Some(x) => Some((x.title@, string_views(x.tags@))),
        None => None,
    }
}

/// Number of characters of the title (none without a header).
pub open spec fn title_len(v: EditorView) -> nat {
    match v.header {
        Some(h) => h.0.len(),
        None => 0,
    }
}

/// The byte where the character before byte `p` starts (one byte back
/// when there is none).
pub open spec fn prev_pos(s: Seq<char>, p: int) -> int {
    if cidx(s, p) > 0 {
        blen(s.take(cidx(s, p) - 1)) as int
    } else {
        p - 1
    }
}

/// The byte after the character that starts at byte `p` (one byte on when
/// there is none).
pub open spec fn next_pos(s: Seq<char>, p: int) -> int {
    if cidx(s, p) < s.len() {
        blen(s.take(cidx(s, p) + 1)) as int
    } else {
        p + 1
    }
}

/// The selection stretched from its anchor (the end away from the cursor,
/// or the cursor when there is none) to `p`, with the cursor at `p`.
pub open spec fn extended(v: EditorView, p: nat) -> EditorView {
    let anchor = match v.selection {
        Some((a, b)) => if v.cursor == a {
            b
        } else {
            a
        },
        None => v.cursor,
    };
    EditorView {
        cursor: p,
        selection: Some(
            (
                if anchor < p {
                    anchor
                } else {
                    p
                },
                if anchor < p {
                    p
                } else {
                    anchor
                },
            ),
        ),
        ..v
    }
}

/// Left arrow: to the selection's start, or one character left in the
/// zone.
pub open spec fn moved_left(v: EditorView) -> EditorView {
    match v.selection {
        Some((a, _)) => EditorView { cursor: a, selection: None, ..v },
        None => match v.zone {
            EditZone::Title => if v.title_cursor > 0 {
                EditorView { title_cursor: (v.title_cursor - 1) as nat, ..v }
            } else {
                v
            },
            EditZone::TagInput => if v.tag_cursor > 0 {
                EditorView { tag_cursor: (v.tag_cursor - 1) as nat, ..v }
            } else {
                v
            },
            EditZone::Content => if v.cursor > 0 {
                EditorView { cursor: prev_pos(v.text, v.cursor as int) as nat, ..v }
            } else {
                v
            },
        },
    }
}

/// Right arrow: to the selection's end, or one character right in the
/// zone, within it.
pub open spec fn moved_right(v: EditorView) -> EditorView {
    match v.selection {
        Some((_, b)) => EditorView { cursor: b, selection: None, ..v },
        None => match v.zone {
            EditZone::Title => if v.title_cursor < title_len(v) {
                EditorView { title_cursor: v.title_cursor + 1, ..v }
            } else {
                v
            },
            EditZone::TagInput => if v.tag_cursor < v.tag_input.len() {
                EditorView { tag_cursor: v.tag_cursor + 1, ..v }
            } else {
                v
            },
            EditZone::Content => if v.cursor < blen(v.text) {
                EditorView { cursor: next_pos(v.text, v.cursor as int) as nat, ..v }
            } else {
                v
            },
        },
    }
}

/// The cursor of the text is on a character boundary.
pub open spec fn cursor_ok(v: EditorView) -> bool {
    is_boundary(v.text, v.cursor as int)
}

impl EditorState {
    pub closed spec fn view(&self) -> EditorView {
        EditorView {
            text: self.text@,
            cursor: self.cursor as nat,
            selection: opt_span(self.selection),
            marked: opt_span(self.ime.marked_range),
            dirty: self.dirty,
            header: header_view(self.header),
            tag_input: self.tag_input@,
            tag_cursor: self.tag_cursor as nat,
            zone: self.zone,
            title_cursor: self.title_cursor as nat,
            dragging: self.dragging,
        }
    }

    /// The buffer holds the text, and the lines are the text's.
    pub closed spec fn wf(&self) -> bool {
        &&& self.buffer.wf()
        &&& self.buffer.text_view() == self.text@
        &&& string_views(self.lines@) == editor_lines(self.text@)
    }

    /// The buffer's changes that undo reverts.
    pub closed spec fn undo_log(&self) -> Seq<(int, Seq<char>, Seq<char>)> {
        self.buffer.undo_view()
    }

    /// The buffer's changes that redo re-applies.
    pub closed spec fn redo_log(&self) -> Seq<(int, Seq<char>, Seq<char>)> {
        self.buffer.redo_view()
    }

    /// The buffer's leaves.
    pub closed spec fn leaves(&self) -> Seq<Seq<char>> {
        self.buffer.leaves()
    }

    /// An empty note without a header, editing its content.
    pub fn new() -> (r: Self)
        ensures
            r.wf(),
            r@.text.len() == 0,
            r@.cursor == 0,
            r@.selection is None,
            r@.marked is None,
            !r@.dirty,
            r@.header is None,
            r@.tag_input.len() == 0,
            r@.tag_cursor == 0,
            r@.zone == EditZone::Content,
            r@.title_cursor == 0,
            !r@.dragging,
            r.undo_log().len() == 0,
            r.redo_log().len() == 0,
    {
        let text = String::new();
        let lines = split_lines(text.as_str());
        EditorState {
            buffer: Buffer::new(),
            text,
            lines,
            cursor: 0,
            selection: None,
            ime: ImeState::new(),
            dirty: false,
            header: None,
            tag_input: String::new(),
            tag_cursor: 0,
            zone: EditZone::Content,
            title_cursor: 0,
            dragging: false,
        }
    }

    /// The text.
    pub fn text(&self) -> (r: &str)
        ensures
            r@ == self@.text,
    {
        self.text.as_str()
    }

    /// The text's lines, as the editor shows them.
    pub fn lines(&self) -> (r: &[String])
        requires
            self.wf(),
        ensures
            string_views(r@) == editor_lines(self@.text),
    {
        self.lines.as_slice()
    }

    /// Whether there are unsaved changes.
    pub fn is_dirty(&self) -> (r: bool)
        ensures
            r == self@.dirty,
    {
        self.dirty
    }

    /// The cursor (a byte of the text).
    pub fn cursor(&self) -> (r: usize)
        ensures
            r == self@.cursor,
    {
        self.cursor
    }

    /// The selection.
    pub fn selection(&self) -> (r: Option<Range<usize>>)
        ensures
            opt_span(r) == self@.selection,
    {
        match &self.selection {
            Some(s) => Some(s.start..s.end),
            None => None,
        }
    }

    /// The zone being edited.
    pub fn zone(&self) -> (r: EditZone)
        ensures
            r == self@.zone,
    {
        self.zone
    }

    /// The title: that of the header, or "Untitled" without one.
    pub fn title(&self) -> (r: &str)
        ensures
            match self@.header {
                Some(h) => r@ == h.0,
                None => r@ == "Untitled"@,
            },
    {
        match &self.header {
            Some(h) => h.title.as_str(),
            None => "Untitled",
        }
    }

    /// The tags (none without a header).
    pub fn tags(&self) -> (r: &[String])
        ensures
            match self@.header {
                Some(h) => string_views(r@) == h.1,
                None => r@.len() == 0,
            },
    {
        match &self.header {
            Some(h) => h.tags.as_slice(),
            None => &[],
        }
    }

    /// Left arrow (see [`moved_left`]).
    pub fn move_left(&mut self)
        requires
            old(self).wf(),
            old(self)@.selection is None && old(self)@.zone == EditZone::Content ==> cursor_ok(
                old(self)@,
            ),
        ensures
            final(self).wf(),
            final(self)@ == moved_left(old(self)@),
            final(self).undo_log() == old(self).undo_log(),
            final(self).redo_log() == old(self).redo_log(),
            final(self).leaves() == old(self).leaves(),
    {
        let ghost v = self@;
        if let Some(sel) = self.selection.take() {
            self.cursor = sel.start;
            proof {
                assert(self@ == moved_left(v));
            }
            return;
        }
        match self.zone {
            EditZone::Title => {
                if self.title_cursor > 0 {
                    self.title_cursor -= 1;
                }
            },
            EditZone::TagInput => {
                if self.tag_cursor > 0 {
                    self.tag_cursor -= 1;
                }
            },
            EditZone::Content => {
                if self.cursor > 0 {
                    self.cursor = prev_char_start(self.text.as_str(), self.cursor);
                }
            },
        }
        proof {
            assert(self@ == moved_left(v));
        }
    }

    /// Right arrow (see [`moved_right`]).
    pub fn move_right(&mut self)
        requires
            old(self).wf(),
            old(self)@.selection is None && old(self)@.zone == EditZone::Content ==> cursor_ok(
                old(self)@,
            ),
        ensures
            final(self).wf(),
            final(self)@ == moved_right(old(self)@),
            final(self).undo_log() == old(self).undo_log(),
            final(self).redo_log() == old(self).redo_log(),
            final(self).leaves() == old(self).leaves(),
    {
        let ghost v = self@;
        if let Some(sel) = self.selection.take() {
            self.cursor = sel.end;
            proof {
                assert(self@ == moved_right(v));
            }
            return;
        }
        match self.zone {
            EditZone::Title => {
                let n = match &self.header {
                    Some(h) => chars_of(h.title.as_str()).len(),
                    None => 0,
                };
                if self.title_cursor < n {
                    self.title_cursor += 1;
                }
            },
            EditZone::TagInput => {
                let n = chars_of(self.tag_input.as_str()).len();
                if self.tag_cursor < n {
                    self.tag_cursor += 1;
                }
            },
            EditZone::Content => {
                if self.cursor < self.text.as_str().as_bytes().len() {
                    self.cursor = next_char_end(self.text.as_str(), self.cursor);
                }
            },
        }
        proof {
            assert(self@ == moved_right(v));
        }
    }
}

/// Shift+Left in the text: the selection stretched one character left.
pub open spec fn selected_left(v: EditorView) -> EditorView {
    if v.zone == EditZone::Content && v.cursor > 0 {
        extended(v, prev_pos(v.text, v.cursor as int) as nat)
    } else {
        v
    }
}

/// Shift+Right in the text: the selection stretched one character right.
pub open spec fn selected_right(v: EditorView) -> EditorView {
    if v.zone == EditZone::Content && v.cursor < blen(v.text) {
        extended(v, next_pos(v.text, v.cursor as int) as nat)
    } else {
        v
    }
}

/// (line, column) of the cursor.
pub open spec fn cursor_line_col(v: EditorView) -> (int, int) {
    byte_line_col(v.text, editor_lines(v.text).len(), v.cursor as int)
}

/// Shift+Up in the text: the selection stretched to the same column of the
/// line above.
pub open spec fn selected_up(v: EditorView) -> EditorView {
    let (line, col) = cursor_line_col(v);
    if v.zone == EditZone::Content && line > 0 {
        extended(v, line_col_byte(v.text, line - 1, col) as nat)
    } else {
        v
    }
}

/// Shift+Down in the text: the selection stretched to the same column of
/// the line below.
pub open spec fn selected_down(v: EditorView) -> EditorView {
    let (line, col) = cursor_line_col(v);
    if v.zone == EditZone::Content && line + 1 < editor_lines(v.text).len() {
        extended(v, line_col_byte(v.text, line + 1, col) as nat)
    } else {
        v
    }
}

/// The (line, column) of the cursor can be found, and the byte of a line
/// and column computed.
pub open spec fn lines_ok(v: EditorView) -> bool {
    line_col_defined(v.text, v.cursor as int) && blen(v.text) < usize::MAX
}

/// What copy puts on the clipboard: the title, the tag input, or the
/// selected text; nothing when that is empty or nothing is selected.
pub open spec fn copied(v: EditorView) -> Option<Seq<char>> {
    let t = match v.zone {
        EditZone::Title => Some(
            match v.header {
                Some(h) => h.0,
                None => seq![],
            },
        ),
        EditZone::TagInput => Some(v.tag_input),
        EditZone::Content => match v.selection {
            Some((a, b)) => {
                let n = blen(v.text) as int;
                let a2 = if a < n {
                    a as int
                } else {
                    n
                };
                let b2 = if b < n {
                    b as int
                } else {
                    n
                };
                Some(v.text.subrange(cidx(v.text, a2), cidx(v.text, b2)))
            },
            None => None,
        },
    };
    match t {
        Some(x) => if x.len() > 0 {
            Some(x)
        } else {
            None
        },
        None => None,
    }
}

/// Copying the selection slices the text on character boundaries.
pub open spec fn copy_ok(v: EditorView) -> bool {
    v.zone == EditZone::Content ==> match v.selection {
        Some((a, b)) => {
            let n = blen(v.text) as int;
            let a2 = if a < n {
                a as int
            } else {
                n
            };
            let b2 = if b < n {
                b as int
            } else {
                n
            };
            a2 <= b2 && is_boundary(v.text, a2) && is_boundary(v.text, b2)
        },
        None => true,
    }
}

impl EditorState {
    /// Stretches the selection to `p` (see [`extended`]).
    fn extend_selection(&mut self, p: usize)
        ensures
            final(self)@ == extended(old(self)@, p as nat),
            final(self).buffer == old(self).buffer,
            final(self).text == old(self).text,
            final(self).lines == old(self).lines,
    {
        let anchor = match &self.selection {
            Some(sel) => if self.cursor == sel.start {
                sel.end
            } else {
                sel.start
            },
            None => self.cursor,
        };
        self.cursor = p;
        let lo = if anchor < p {
            anchor
        } else {
            p
        };
        let hi = if anchor < p {
            p
        } else {
            anchor
        };
        self.selection = Some(lo..hi);
    }

    /// Shift+Left (see [`selected_left`]).
    pub fn select_left(&mut self)
        requires
            old(self).wf(),
            old(self)@.zone == EditZone::Content ==> cursor_ok(old(self)@),
        ensures
            final(self).wf(),
            final(self)@ == selected_left(old(self)@),
            final(self).undo_log() == old(self).undo_log(),
            final(self).redo_log() == old(self).redo_log(),
            final(self).leaves() == old(self).leaves(),
    {
        if self.zone != EditZone::Content {
            return;
        }
        if self.cursor > 0 {
            let p = prev_char_start(self.text.as_str(), self.cursor);
            self.extend_selection(p);
        }
    }

    /// Shift+Right (see [`selected_right`]).
    pub fn select_right(&mut self)
        requires
            old(self).wf(),
            old(self)@.zone == EditZone::Content ==> cursor_ok(old(self)@),
        ensures
            final(self).wf(),
            final(self)@ == selected_right(old(self)@),
            final(self).undo_log() == old(self).undo_log(),
            final(self).redo_log() == old(self).redo_log(),
            final(self).leaves() == old(self).leaves(),
    {
        if self.zone != EditZone::Content {
            return;
        }
        if self.cursor < self.text.as_str().as_bytes().len() {
            let p = next_char_end(self.text.as_str(), self.cursor);
            self.extend_selection(p);
        }
    }

    /// (line, column) of the cursor.
    fn cursor_position(&self) -> (r: (usize, usize))
        requires
            self.wf(),
            lines_ok(self@),
        ensures
            r.0 == cursor_line_col(self@).0,
            r.1 == cursor_line_col(self@).1,
    {
        proof {
            assert(string_views(self.lines@).len() == self.lines@.len());
        }
        byte_to_line_col(self.text.as_str(), self.lines.len(), self.cursor)
    }

    /// Shift+Up (see [`selected_up`]).
    pub fn select_up(&mut self)
        requires
            old(self).wf(),
            old(self)@.zone == EditZone::Content ==> lines_ok(old(self)@),
        ensures
            final(self).wf(),
            final(self)@ == selected_up(old(self)@),
            final(self).undo_log() == old(self).undo_log(),
            final(self).redo_log() == old(self).redo_log(),
            final(self).leaves() == old(self).leaves(),
    {
        if self.zone != EditZone::Content {
            return;
        }
        let (line, col) = self.cursor_position();
        if line > 0 {
            let p = line_col_to_byte(self.text.as_str(), line - 1, col);
            self.extend_selection(p);
        }
    }

    /// Shift+Down (see [`selected_down`]).
    pub fn select_down(&mut self)
        requires
            old(self).wf(),
            old(self)@.zone == EditZone::Content ==> lines_ok(old(self)@),
        ensures
            final(self).wf(),
            final(self)@ == selected_down(old(self)@),
            final(self).undo_log() == old(self).undo_log(),
            final(self).redo_log() == old(self).redo_log(),
            final(self).leaves() == old(self).leaves(),
    {
        if self.zone != EditZone::Content {
            return;
        }
        let (line, col) = self.cursor_position();
        proof {
            assert(string_views(self.lines@).len() == self.lines@.len());
        }
        if line < self.lines.len() && line + 1 < self.lines.len() {
            let p = line_col_to_byte(self.text.as_str(), line + 1, col);
            self.extend_selection(p);
        }
    }

    /// Select all: the whole text, the cursor at its end.
    pub fn select_all(&mut self)
        requires
            old(self).wf(),
        ensures
            final(self).wf(),
            final(self)@ == if old(self)@.zone == EditZone::Content && blen(old(self)@.text) > 0 {
                EditorView {
                    cursor: blen(old(self)@.text),
                    selection: Some((0, blen(old(self)@.text))),
                    ..old(self)@
                }
            } else {
                old(self)@
            },
            final(self).undo_log() == old(self).undo_log(),
            final(self).redo_log() == old(self).redo_log(),
            final(self).leaves() == old(self).leaves(),
    {
        if self.zone != EditZone::Content {
            return;
        }
        let n = self.text.as_str().as_bytes().len();
        if n > 0 {
            self.cursor = n;
            self.selection = Some(0..n);
        }
    }

    /// What copy puts on the clipboard (see [`copied`]).
    pub fn copy_text(&self) -> (r: Option<String>)
        requires
            copy_ok(self@),
        ensures
            match r {
                Some(t) => copied(self@) == Some(t@),
                None => copied(self@) is None,
            },
    {
        let t: String = match self.zone {
            EditZone::Title => match &self.header {
                Some(h) => h.title.clone(),
                None => String::new(),
            },
            EditZone::TagInput => self.tag_input.clone(),
            EditZone::Content => match &self.selection {
                Some(sel) => {
                    let s = self.text.as_str();
                    let n = s.as_bytes().len();
                    let a = if sel.start < n {
                        sel.start
                    } else {
                        n
                    };
                    let b = if sel.end < n {
                        sel.end
                    } else {
                        n
                    };
                    byte_slice(s, a, b)
                },
                None => {
                    return None;
                },
            },
        };
        if t.as_str().is_empty() {
            None
        } else {
            Some(t)
        }
    }
}

/// The text of the bytes `a..b` of `s`.
fn byte_slice(s: &str, a: usize, b: usize) -> (r: String)
    requires
        a <= b,
        is_boundary(s@, a as int),
        is_boundary(s@, b as int),
    ensures
        r@ == s@.subrange(cidx(s@, a as int), cidx(s@, b as int)),
{
    let chars = chars_of(s);
    let ka = crate::utf8len::char_index_of_byte(chars.as_slice(), a);
    let kb = crate::utf8len::char_index_of_byte(chars.as_slice(), b);
    proof {
        lemma_boundary_split(s@, a as int);
        lemma_boundary_split(s@, b as int);
        if kb < ka {
            lemma_blen_mono(s@, kb as int, ka as int);
            crate::utf8len::lemma_blen_empty(s@.subrange(kb as int, ka as int));
        }
    }
    crate::text::string_from_chars(vstd::slice::slice_subrange(chars.as_slice(), ka, kb))
}

/// The byte where the character before byte `p` starts.
fn prev_char_start(s: &str, p: usize) -> (r: usize)
    requires
        0 < p,
        is_boundary(s@, p as int),
    ensures
        r == prev_pos(s@, p as int),
{
    let chars = chars_of(s);
    let k = crate::utf8len::char_index_of_byte(chars.as_slice(), p);
    proof {
        lemma_boundary_split(s@, p as int);
    }
    if k == 0 {
        return p - 1;
    }
    let w = char_utf8_len(chars[k - 1]);
    proof {
        assert(s@.take(k as int) =~= s@.take(k - 1) + seq![s@[k - 1]]);
        crate::utf8len::lemma_blen_concat(s@.take(k - 1), seq![s@[k - 1]]);
        crate::utf8len::lemma_blen_single(s@[k - 1]);
    }
    p - w
}

/// The byte after the character that starts at byte `p`.
fn next_char_end(s: &str, p: usize) -> (r: usize)
    requires
        p < blen(s@),
        is_boundary(s@, p as int),
    ensures
        r == next_pos(s@, p as int),
{
    let n = s.as_bytes().len();
    let chars = chars_of(s);
    let k = crate::utf8len::char_index_of_byte(chars.as_slice(), p);
    proof {
        lemma_boundary_split(s@, p as int);
        if k == chars@.len() {
            assert(s@.take(k as int) =~= s@);
        }
    }
    let w = char_utf8_len(chars[k]);
    proof {
        assert(s@.take(k + 1) =~= s@.take(k as int) + seq![s@[k as int]]);
        crate::utf8len::lemma_blen_concat(s@.take(k as int), seq![s@[k as int]]);
        crate::utf8len::lemma_blen_single(s@[k as int]);
        lemma_blen_mono(s@, k + 1, s@.len() as int);
    }
    p + w
}


/// A character index clamped to the end of `s`.
pub open spec fn clamped(s: Seq<char>, k: nat) -> int {
    if k < s.len() {
        k as int
    } else {
        s.len() as int
    }
}

/// `s` without the character before character `k` (`k` clamped to the end).
pub open spec fn char_removed_before(s: Seq<char>, k: nat) -> Seq<char> {
    s.take(clamped(s, k) - 1) + s.skip(clamped(s, k))
}

/// `p` put into `s` before character `k` (`k` clamped to the end).
pub open spec fn chars_inserted(s: Seq<char>, k: nat, p: Seq<char>) -> Seq<char> {
    s.take(clamped(s, k)) + p + s.skip(clamped(s, k))
}

/// `s` without the character before character `k`.
fn remove_char_before(s: &str, k: usize) -> (r: String)
    requires
        clamped(s@, k as nat) > 0,
    ensures
        r@ == char_removed_before(s@, k as nat),
{
    let chars = chars_of(s);
    let j = if k < chars.len() {
        k
    } else {
        chars.len()
    };
    let mut v: Vec<char> = Vec::new();
    push_all(&mut v, vstd::slice::slice_subrange(chars.as_slice(), 0, j - 1));
    push_all(&mut v, vstd::slice::slice_subrange(chars.as_slice(), j, chars.len()));
    proof {
        assert(v@ =~= char_removed_before(s@, k as nat));
    }
    string_from_chars(v.as_slice())
}

/// `p` put into `s` before character `k`.
fn insert_chars(s: &str, k: usize, p: &str) -> (r: String)
    ensures
        r@ == chars_inserted(s@, k as nat, p@),
{
    let chars = chars_of(s);
    let pc = chars_of(p);
    let j = if k < chars.len() {
        k
    } else {
        chars.len()
    };
    let mut v: Vec<char> = Vec::new();
    push_all(&mut v, vstd::slice::slice_subrange(chars.as_slice(), 0, j));
    push_all(&mut v, pc.as_slice());
    push_all(&mut v, vstd::slice::slice_subrange(chars.as_slice(), j, chars.len()));
    proof {
        assert(v@ =~= chars_inserted(s@, k as nat, p@));
    }
    string_from_chars(v.as_slice())
}

/// The selection lies within the text, on character boundaries.
pub open spec fn selection_ok(v: EditorView) -> bool {
    match v.selection {
        Some((a, b)) => a <= b <= blen(v.text) && is_boundary(v.text, a as int) && is_boundary(
            v.text,
            b as int,
        ),
        None => true,
    }
}

/// The selected bytes removed from the text, the cursor at their start;
/// unchanged without a selection.
pub open spec fn without_selection(v: EditorView) -> EditorView {
    match v.selection {
        Some((a, b)) => EditorView {
            text: cut(v.text, a as int, b as int),
            cursor: a,
            selection: None,
            ..v
        },
        None => v,
    }
}

/// The rope's leaves once the selection is removed.
pub open spec fn leaves_without_selection(ls: Seq<Seq<char>>, v: EditorView) -> Seq<Seq<char>> {
    match v.selection {
        Some((a, b)) => delete_leaves(ls, a as int, b as int),
        None => ls,
    }
}

/// `p` written into the text at the cursor, in place of the selection.
pub open spec fn typed(v: EditorView, p: Seq<char>) -> EditorView {
    let w = without_selection(v);
    EditorView {
        text: splice(w.text, w.cursor as int, p),
        cursor: w.cursor + blen(p),
        dirty: true,
        ..w
    }
}

/// Writing `p` at the cursor can be done: the selection (or else the
/// cursor) lies on boundaries, the rope can take `p`, and the text's
/// length stays within `usize`.
pub open spec fn typing_ok(ls: Seq<Seq<char>>, v: EditorView, p: Seq<char>) -> bool {
    &&& selection_ok(v)
    &&& v.selection is None ==> cursor_ok(v)
    &&& p.len() > 0 ==> chunks_fit(
        leaves_without_selection(ls, v),
        without_selection(v).cursor as int,
        p,
    )
    &&& blen(without_selection(v).text) + blen(p) <= usize::MAX
}

/// The rope's leaves after writing `p` at the cursor: the selection's
/// bytes removed, then `p` put in.
pub open spec fn typed_leaves(ls: Seq<Seq<char>>, v: EditorView, p: Seq<char>) -> Seq<Seq<char>> {
    insert_leaves(leaves_without_selection(ls, v), without_selection(v).cursor as int, p)
}

/// The undo log after writing `p` at the cursor: the selection's removal,
/// if any, then the insertion.
pub open spec fn typed_log(
    log: Seq<(int, Seq<char>, Seq<char>)>,
    v: EditorView,
    p: Seq<char>,
) -> Seq<(int, Seq<char>, Seq<char>)> {
    selection_log(log, v).push((without_selection(v).cursor as int, p, Seq::<char>::empty()))
}

/// The undo log after the selection's removal, if there is one.
pub open spec fn selection_log(
    log: Seq<(int, Seq<char>, Seq<char>)>,
    v: EditorView,
) -> Seq<(int, Seq<char>, Seq<char>)> {
    match v.selection {
        Some((a, b)) => log.push(
            (a as int, Seq::<char>::empty(), v.text.subrange(cidx(v.text, a as int), cidx(v.text, b as int))),
        ),
        None => log,
    }
}

impl EditorState {
    /// Removes the bytes `a..b` of the text, through the buffer.
    fn delete_text(&mut self, a: usize, b: usize)
        requires
            old(self).wf(),
            a <= b <= blen(old(self)@.text),
            is_boundary(old(self)@.text, a as int),
            is_boundary(old(self)@.text, b as int),
        ensures
            final(self).wf(),
            final(self)@ == (EditorView { text: cut(old(self)@.text, a as int, b as int), ..old(self)@ }),
            final(self).leaves() == delete_leaves(old(self).leaves(), a as int, b as int),
            final(self).undo_log() == old(self).undo_log().push(
                (
                    a as int,
                    Seq::<char>::empty(),
                    old(self)@.text.subrange(
                        cidx(old(self)@.text, a as int),
                        cidx(old(self)@.text, b as int),
                    ),
                ),
            ),
            final(self).redo_log().len() == 0,
    {
        self.buffer.delete(a, b);
        self.text = self.buffer.text();
        self.lines = split_lines(self.text.as_str());
    }

    /// Puts `t` into the text at byte `p`, through the buffer.
    fn insert_text(&mut self, p: usize, t: &str)
        requires
            old(self).wf(),
            p <= blen(old(self)@.text),
            is_boundary(old(self)@.text, p as int),
            t@.len() > 0 ==> chunks_fit(old(self).leaves(), p as int, t@),
            blen(old(self)@.text) + blen(t@) <= usize::MAX,
        ensures
            final(self).wf(),
            final(self)@ == (EditorView { text: splice(old(self)@.text, p as int, t@), ..old(self)@ }),
            final(self).leaves() == insert_leaves(old(self).leaves(), p as int, t@),
            final(self).undo_log() == old(self).undo_log().push((p as int, t@, Seq::<char>::empty())),
            final(self).redo_log().len() == 0,
    {
        self.buffer.insert(p, t);
        self.text = self.buffer.text();
        self.lines = split_lines(self.text.as_str());
    }

    /// Removes the selection from the text (see [`without_selection`]).
    fn remove_selection(&mut self)
        requires
            old(self).wf(),
            selection_ok(old(self)@),
        ensures
            final(self).wf(),
            final(self)@ == without_selection(old(self)@),
            final(self).leaves() == leaves_without_selection(old(self).leaves(), old(self)@),
            final(self).undo_log() == selection_log(old(self).undo_log(), old(self)@),
            old(self)@.selection is Some ==> final(self).redo_log().len() == 0,
            old(self)@.selection is None ==> final(self).redo_log() == old(self).redo_log(),
    {
        if let Some(sel) = self.selection.take() {
            self.delete_text(sel.start, sel.end);
            self.cursor = sel.start;
        }
    }

    /// Writes `t` into the text at the cursor, in place of the selection
    /// (see [`typed`]).
    fn type_text(&mut self, t: &str)
        requires
            old(self).wf(),
            typing_ok(old(self).leaves(), old(self)@, t@),
        ensures
            final(self).wf(),
            final(self)@ == typed(old(self)@, t@),
            final(self).leaves() == typed_leaves(old(self).leaves(), old(self)@, t@),
            final(self).undo_log() == typed_log(old(self).undo_log(), old(self)@, t@),
            final(self).redo_log().len() == 0,
    {
        let ghost v = self@;
        self.remove_selection();
        proof {
            let w = without_selection(v);
            assert(is_boundary(w.text, w.cursor as int)) by {
                if let Some((a, b)) = v.selection {
                    lemma_boundary_split(v.text, a as int);
                    lemma_boundary_split(v.text, b as int);
                    let k = cidx(v.text, a as int);
                    assert(w.text.take(k) =~= v.text.take(k));
                    crate::utf8len::lemma_cidx_take(w.text, k);
                }
            }
            lemma_boundary_split(w.text, w.cursor as int);
        }
        self.insert_text(self.cursor, t);
        self.cursor = self.cursor + t.as_bytes().len();
        self.dirty = true;
    }
}


/// Backspace: in the title or the tag input, the character before the
/// cursor; in the text, the selection, or else the character before the
/// cursor.
pub open spec fn backspaced(v: EditorView) -> EditorView {
    match v.zone {
        EditZone::Title => match v.header {
            Some(h) => if v.title_cursor > 0 && clamped(h.0, v.title_cursor) > 0 {
                EditorView {
                    header: Some((char_removed_before(h.0, v.title_cursor), h.1)),
                    title_cursor: (v.title_cursor - 1) as nat,
                    dirty: true,
                    ..v
                }
            } else {
                v
            },
            None => v,
        },
        EditZone::TagInput => if v.tag_cursor > 0 && clamped(v.tag_input, v.tag_cursor) > 0 {
            EditorView {
                tag_input: char_removed_before(v.tag_input, v.tag_cursor),
                tag_cursor: (v.tag_cursor - 1) as nat,
                ..v
            }
        } else {
            v
        },
        EditZone::Content => match v.selection {
            Some(_) => EditorView { dirty: true, ..without_selection(v) },
            None => if v.cursor > 0 {
                let st = prev_pos(v.text, v.cursor as int);
                EditorView {
                    text: cut(v.text, st, v.cursor as int),
                    cursor: st as nat,
                    dirty: true,
                    ..v
                }
            } else {
                v
            },
        },
    }
}

/// Backspace changes the text (and so the buffer's history).
pub open spec fn backspace_edits(v: EditorView) -> bool {
    v.zone == EditZone::Content && (v.selection is Some || v.cursor > 0)
}

/// The undo log after a backspace.
pub open spec fn backspace_log(
    log: Seq<(int, Seq<char>, Seq<char>)>,
    v: EditorView,
) -> Seq<(int, Seq<char>, Seq<char>)> {
    if !backspace_edits(v) {
        log
    } else if v.selection is Some {
        selection_log(log, v)
    } else {
        let st = prev_pos(v.text, v.cursor as int);
        log.push((st, Seq::<char>::empty(), v.text.subrange(cidx(v.text, st), cidx(v.text, v.cursor as int))))
    }
}

/// The rope's leaves after a backspace.
pub open spec fn backspace_leaves(ls: Seq<Seq<char>>, v: EditorView) -> Seq<Seq<char>> {
    if !backspace_edits(v) {
        ls
    } else if v.selection is Some {
        leaves_without_selection(ls, v)
    } else {
        delete_leaves(ls, prev_pos(v.text, v.cursor as int), v.cursor as int)
    }
}

/// Backspace and cut can be done: in the text, the selection (or else the
/// cursor) lies on character boundaries.
pub open spec fn erase_ok(v: EditorView) -> bool {
    v.zone == EditZone::Content ==> selection_ok(v) && (v.selection is None ==> cursor_ok(v))
}

/// Paste: `p` put at the cursor of the zone (in place of the text's
/// selection); nothing for an empty `p`, or in the title without a header.
pub open spec fn pasted(v: EditorView, p: Seq<char>) -> EditorView {
    if p.len() == 0 {
        v
    } else {
        match v.zone {
            EditZone::Title => match v.header {
                Some(h) => EditorView {
                    header: Some((chars_inserted(h.0, v.title_cursor, p), h.1)),
                    title_cursor: v.title_cursor + p.len(),
                    dirty: true,
                    ..v
                },
                None => v,
            },
            EditZone::TagInput => EditorView {
                tag_input: chars_inserted(v.tag_input, v.tag_cursor, p),
                tag_cursor: v.tag_cursor + p.len(),
                ..v
            },
            EditZone::Content => typed(v, p),
        }
    }
}

/// Pasting `p` can be done: the text can take it (see [`typing_ok`]) and
/// the zone's cursor stays within `usize`.
pub open spec fn paste_ok(ls: Seq<Seq<char>>, v: EditorView, p: Seq<char>) -> bool {
    &&& v.zone == EditZone::Content ==> typing_ok(ls, v, p)
    &&& v.zone == EditZone::Title ==> v.title_cursor + p.len() <= usize::MAX
    &&& v.zone == EditZone::TagInput ==> v.tag_cursor + p.len() <= usize::MAX
}

impl EditorState {
    /// Backspace (see [`backspaced`]).
    pub fn backspace(&mut self)
        requires
            old(self).wf(),
            erase_ok(old(self)@),
        ensures
            final(self).wf(),
            final(self)@ == backspaced(old(self)@),
            final(self).undo_log() == backspace_log(old(self).undo_log(), old(self)@),
            final(self).leaves() == backspace_leaves(old(self).leaves(), old(self)@),
            backspace_edits(old(self)@) ==> final(self).redo_log().len() == 0,
            !backspace_edits(old(self)@) ==> final(self).redo_log() == old(self).redo_log()
                && final(self).leaves() == old(self).leaves(),
    {
        let ghost v = self@;
        match self.zone {
            EditZone::Title => {
                if self.title_cursor > 0 {
                    let hdr = self.header.take();
                    match hdr {
                        Some(mut h) => {
                            let n = chars_of(h.title.as_str()).len();
                            if n > 0 {
                                h.title = remove_char_before(h.title.as_str(), self.title_cursor);
                                self.title_cursor -= 1;
                                self.dirty = true;
                            }
                            self.header = Some(h);
                        },
                        None => {},
                    }
                }
                proof {
                    assert(self@ == backspaced(v));
                }
            },
            EditZone::TagInput => {
                if self.tag_cursor > 0 {
                    let n = chars_of(self.tag_input.as_str()).len();
                    if n > 0 {
                        self.tag_input = remove_char_before(self.tag_input.as_str(), self.tag_cursor);
                        self.tag_cursor -= 1;
                    }
                }
                proof {
                    assert(self@ == backspaced(v));
                }
            },
            EditZone::Content => {
                if self.selection.is_some() {
                    self.remove_selection();
                    self.dirty = true;
                    return;
                }
                if self.cursor > 0 {
                    let st = prev_char_start(self.text.as_str(), self.cursor);
                    proof {
                        lemma_boundary_split(v.text, v.cursor as int);
                        let k = cidx(v.text, v.cursor as int);
                        crate::utf8len::lemma_cidx_take(v.text, k - 1);
                        lemma_blen_mono(v.text, k - 1, k);
                    }
                    self.delete_text(st, self.cursor);
                    self.cursor = st;
                    self.dirty = true;
                }
            },
        }
    }

    /// Cut: what copy puts on the clipboard (see [`copied`]), then the
    /// effect of backspace (see [`backspaced`]).
    pub fn cut(&mut self) -> (r: Option<String>)
        requires
            old(self).wf(),
            erase_ok(old(self)@),
        ensures
            match r {
                Some(t) => copied(old(self)@) == Some(t@),
                None => copied(old(self)@) is None,
            },
            final(self).wf(),
            final(self)@ == backspaced(old(self)@),
            final(self).undo_log() == backspace_log(old(self).undo_log(), old(self)@),
            final(self).leaves() == backspace_leaves(old(self).leaves(), old(self)@),
            backspace_edits(old(self)@) ==> final(self).redo_log().len() == 0,
            !backspace_edits(old(self)@) ==> final(self).redo_log() == old(self).redo_log()
                && final(self).leaves() == old(self).leaves(),
    {
        let r = self.copy_text();
        self.backspace();
        r
    }

    /// Paste of `text` (see [`pasted`]).
    pub fn paste(&mut self, text: &str)
        requires
            old(self).wf(),
            paste_ok(old(self).leaves(), old(self)@, text@),
        ensures
            final(self).wf(),
            final(self)@ == pasted(old(self)@, text@),
            old(self)@.zone == EditZone::Content && text@.len() > 0 ==> final(self).undo_log()
                == typed_log(old(self).undo_log(), old(self)@, text@) && final(self).redo_log().len()
                == 0 && final(self).leaves() == typed_leaves(old(self).leaves(), old(self)@, text@),
            !(old(self)@.zone == EditZone::Content && text@.len() > 0) ==> final(self).undo_log()
                == old(self).undo_log() && final(self).redo_log() == old(self).redo_log()
                && final(self).leaves() == old(self).leaves(),
    {
        let ghost v = self@;
        let n = chars_of(text).len();
        if n == 0 {
            return;
        }
        match self.zone {
            EditZone::Title => {
                let hdr = self.header.take();
                match hdr {
                    Some(mut h) => {
                        h.title = insert_chars(h.title.as_str(), self.title_cursor, text);
                        self.title_cursor += n;
                        self.dirty = true;
                        self.header = Some(h);
                    },
                    None => {},
                }
                proof {
                    assert(self@ == pasted(v, text@));
                }
            },
            EditZone::TagInput => {
                self.tag_input = insert_chars(self.tag_input.as_str(), self.tag_cursor, text);
                self.tag_cursor += n;
                proof {
                    assert(self@ == pasted(v, text@));
                }
            },
            EditZone::Content => {
                self.type_text(text);
            },
        }
    }
}


/// Full-width spaces (U+3000) turned into spaces.
pub open spec fn normalized(s: Seq<char>) -> Seq<char> {
    s.map_values(|c: char| if c == '\u{3000}' { ' ' } else { c })
}

/// The tag input committed: a non-empty input becomes the header's tags
/// (see [`input_tags`]), and the input is cleared.
pub open spec fn committed(v: EditorView) -> EditorView {
    let changes = v.tag_input.len() > 0 && v.header is Some;
    EditorView {
        header: if changes {
            Some((v.header.unwrap().0, input_tags(normalized(v.tag_input))))
        } else {
            v.header
        },
        dirty: if changes {
            true
        } else {
            v.dirty
        },
        tag_input: seq![],
        tag_cursor: 0,
        ..v
    }
}

/// The tags written out for the tag input: `#tag ` for each tag.
pub open spec fn tag_line(ts: Seq<Seq<char>>) -> Seq<char>
    decreases ts.len(),
{
    if ts.len() == 0 {
        seq![]
    } else {
        tag_line(ts.drop_last()) + seq!['#'] + ts.last() + seq![' ']
    }
}

/// The tag input filled with the header's tags, the cursor at its end.
pub open spec fn populated(v: EditorView) -> EditorView {
    match v.header {
        Some(h) => EditorView { tag_input: tag_line(h.1), tag_cursor: tag_line(h.1).len(), ..v },
        None => v,
    }
}

/// The smaller of two numbers.
pub open spec fn min_nat(a: nat, b: nat) -> nat {
    if a < b {
        a
    } else {
        b
    }
}

/// Enter: from the title to the text's start; from the tag input (which
/// is committed) to the same column of the text's first line; in the
/// text, a newline in place of the selection.
pub open spec fn entered(v: EditorView) -> EditorView {
    match v.zone {
        EditZone::Title => EditorView { zone: EditZone::Content, cursor: 0, ..v },
        EditZone::TagInput => EditorView {
            zone: EditZone::Content,
            cursor: line_col_byte(v.text, 0, v.tag_cursor as int) as nat,
            ..committed(v)
        },
        EditZone::Content => typed(v, seq!['\n']),
    }
}

/// Enter can be done: in the text a newline can be written; from the tag
/// input the text's length leaves room for one more byte.
pub open spec fn enter_ok(ls: Seq<Seq<char>>, v: EditorView) -> bool {
    &&& v.zone == EditZone::Content ==> typing_ok(ls, v, seq!['\n'])
    &&& v.zone == EditZone::TagInput ==> blen(v.text) < usize::MAX
}

/// Up arrow: the selection is dropped; from the tag input (committed) to
/// the title; from the text's first line to the tag input (filled with
/// the tags) when there is a header; else to the same column of the line
/// above.
pub open spec fn moved_up(v: EditorView) -> EditorView {
    let v0 = EditorView { selection: None, ..v };
    let (line, col) = cursor_line_col(v);
    match v.zone {
        EditZone::Title => v0,
        EditZone::TagInput => EditorView {
            zone: EditZone::Title,
            title_cursor: min_nat(v.tag_cursor, title_len(v)),
            ..committed(v0)
        },
        EditZone::Content => if line == 0 && v.header is Some {
            EditorView {
                zone: EditZone::TagInput,
                tag_cursor: min_nat(col as nat, tag_line(v.header.unwrap().1).len()),
                ..populated(v0)
            }
        } else if line > 0 {
            EditorView { cursor: line_col_byte(v.text, line - 1, col) as nat, ..v0 }
        } else {
            v0
        },
    }
}

/// Down arrow: the selection is dropped; from the title to the tag input
/// (filled with the tags); from the tag input (committed) to the same
/// column of the text's first line; in the text to the same column of the
/// line below.
pub open spec fn moved_down(v: EditorView) -> EditorView {
    let v0 = EditorView { selection: None, ..v };
    let (line, col) = cursor_line_col(v);
    match v.zone {
        EditZone::Title => EditorView {
            zone: EditZone::TagInput,
            tag_cursor: min_nat(v.title_cursor, populated(v0).tag_input.len()),
            ..populated(v0)
        },
        EditZone::TagInput => EditorView {
            zone: EditZone::Content,
            cursor: line_col_byte(v.text, 0, v.tag_cursor as int) as nat,
            ..committed(v0)
        },
        EditZone::Content => if line + 1 < editor_lines(v.text).len() {
            EditorView { cursor: line_col_byte(v.text, line + 1, col) as nat, ..v0 }
        } else {
            v0
        },
    }
}

/// The arrows up and down can be done: in the text the cursor's line and
/// column can be found; from the tag input the text leaves room for one
/// more byte.
pub open spec fn vertical_ok(v: EditorView) -> bool {
    &&& v.zone == EditZone::Content ==> lines_ok(v)
    &&& v.zone == EditZone::TagInput ==> blen(v.text) < usize::MAX
}

/// Full-width spaces of `s` turned into spaces.
fn normalize_spaces(s: &str) -> (r: String)
    ensures
        r@ == normalized(s@),
{
    let chars = chars_of(s);
    let mut out: Vec<char> = Vec::new();
    let mut i: usize = 0;
    while i < chars.len()
        invariant
            i <= chars@.len(),
            chars@ == s@,
            out@ == normalized(s@.take(i as int)),
        decreases chars@.len() - i,
    {
        let c = chars[i];
        out.push(
            if c == '\u{3000}' {
                ' '
            } else {
                c
            },
        );
        i += 1;
        proof {
            assert(normalized(s@.take(i as int)) =~= normalized(s@.take(i - 1)).push(
                if c == '\u{3000}' {
                    ' '
                } else {
                    c
                },
            ));
        }
    }
    proof {
        assert(s@.take(i as int) =~= s@);
    }
    string_from_chars(out.as_slice())
}

/// The tags written out as `#tag ` each.
fn tags_line(tags: &Vec<String>) -> (r: String)
    ensures
        r@ == tag_line(string_views(tags@)),
{
    let mut out: Vec<char> = Vec::new();
    let mut i: usize = 0;
    while i < tags.len()
        invariant
            i <= tags@.len(),
            out@ == tag_line(string_views(tags@).take(i as int)),
        decreases tags@.len() - i,
    {
        let t = chars_of(tags[i].as_str());
        out.push('#');
        push_all(&mut out, t.as_slice());
        out.push(' ');
        proof {
            let ts = string_views(tags@).take(i + 1);
            assert(ts.drop_last() =~= string_views(tags@).take(i as int));
            assert(out@ =~= tag_line(ts));
        }
        i += 1;
    }
    proof {
        assert(string_views(tags@).take(i as int) =~= string_views(tags@));
    }
    string_from_chars(out.as_slice())
}

impl EditorState {
    /// Commits the tag input (see [`committed`]); returns the input's
    /// cursor as it was.
    fn commit_tag_input(&mut self) -> (r: usize)
        ensures
            r == old(self)@.tag_cursor,
            final(self)@ == committed(old(self)@),
            final(self).buffer == old(self).buffer,
            final(self).text == old(self).text,
            final(self).lines == old(self).lines,
    {
        let saved = self.tag_cursor;
        let n = chars_of(self.tag_input.as_str()).len();
        if n > 0 {
            let norm = normalize_spaces(self.tag_input.as_str());
            let parsed = parse_tags_from_input(norm.as_str());
            let hdr = self.header.take();
            match hdr {
                Some(mut h) => {
                    h.tags = parsed;
                    self.dirty = true;
                    self.header = Some(h);
                },
                None => {},
            }
        }
        self.tag_input = String::new();
        self.tag_cursor = 0;
        proof {
            assert(self.tag_input@ =~= seq![]);
        }
        saved
    }

    /// Fills the tag input with the header's tags (see [`populated`]).
    fn populate_tag_input(&mut self)
        ensures
            final(self)@ == populated(old(self)@),
            final(self).buffer == old(self).buffer,
            final(self).text == old(self).text,
            final(self).lines == old(self).lines,
    {
        match &self.header {
            Some(h) => {
                let line = tags_line(&h.tags);
                let n = chars_of(line.as_str()).len();
                self.tag_input = line;
                self.tag_cursor = n;
            },
            None => {},
        }
    }

    /// Enter (see [`entered`]).
    pub fn enter(&mut self)
        requires
            old(self).wf(),
            enter_ok(old(self).leaves(), old(self)@),
        ensures
            final(self).wf(),
            final(self)@ == entered(old(self)@),
            old(self)@.zone == EditZone::Content ==> final(self).undo_log() == typed_log(
                old(self).undo_log(),
                old(self)@,
                seq!['\n'],
            ) && final(self).redo_log().len() == 0 && final(self).leaves() == typed_leaves(
                old(self).leaves(),
                old(self)@,
                seq!['\n'],
            ),
            old(self)@.zone != EditZone::Content ==> final(self).undo_log() == old(self).undo_log()
                && final(self).redo_log() == old(self).redo_log() && final(self).leaves()
                == old(self).leaves(),
    {
        let ghost v = self@;
        match self.zone {
            EditZone::Title => {
                self.zone = EditZone::Content;
                self.cursor = 0;
                proof {
                    assert(self@ == entered(v));
                }
            },
            EditZone::TagInput => {
                let saved = self.commit_tag_input();
                self.zone = EditZone::Content;
                self.cursor = line_col_to_byte(self.text.as_str(), 0, saved);
            },
            EditZone::Content => {
                proof {
                    reveal_strlit("\n");
                    assert("\n"@ =~= seq!['\n']);
                }
                self.type_text("\n");
            },
        }
    }

    /// Up arrow (see [`moved_up`]).
    pub fn move_up(&mut self)
        requires
            old(self).wf(),
            vertical_ok(old(self)@),
        ensures
            final(self).wf(),
            final(self)@ == moved_up(old(self)@),
            final(self).undo_log() == old(self).undo_log(),
            final(self).redo_log() == old(self).redo_log(),
            final(self).leaves() == old(self).leaves(),
    {
        let ghost v = self@;
        self.selection = None;
        match self.zone {
            EditZone::Title => {},
            EditZone::TagInput => {
                let saved = self.commit_tag_input();
                self.zone = EditZone::Title;
                let n = match &self.header {
                    Some(h) => chars_of(h.title.as_str()).len(),
                    None => 0,
                };
                self.title_cursor = if saved < n {
                    saved
                } else {
                    n
                };
            },
            EditZone::Content => {
                let (line, col) = self.cursor_position();
                if line == 0 && self.header.is_some() {
                    self.zone = EditZone::TagInput;
                    self.populate_tag_input();
                    let n = chars_of(self.tag_input.as_str()).len();
                    self.tag_cursor = if col < n {
                        col
                    } else {
                        n
                    };
                } else if line > 0 {
                    self.cursor = line_col_to_byte(self.text.as_str(), line - 1, col);
                }
            },
        }
        proof {
            assert(self@ == moved_up(v));
        }
    }

    /// Down arrow (see [`moved_down`]).
    pub fn move_down(&mut self)
        requires
            old(self).wf(),
            vertical_ok(old(self)@),
        ensures
            final(self).wf(),
            final(self)@ == moved_down(old(self)@),
            final(self).undo_log() == old(self).undo_log(),
            final(self).redo_log() == old(self).redo_log(),
            final(self).leaves() == old(self).leaves(),
    {
        let ghost v = self@;
        self.selection = None;
        match self.zone {
            EditZone::Title => {
                self.zone = EditZone::TagInput;
                self.populate_tag_input();
                let n = chars_of(self.tag_input.as_str()).len();
                self.tag_cursor = if self.title_cursor < n {
                    self.title_cursor
                } else {
                    n
                };
            },
            EditZone::TagInput => {
                let saved = self.commit_tag_input();
                self.zone = EditZone::Content;
                self.cursor = line_col_to_byte(self.text.as_str(), 0, saved);
            },
            EditZone::Content => {
                let (line, col) = self.cursor_position();
                proof {
                    assert(string_views(self.lines@).len() == self.lines@.len());
                }
                if line < self.lines.len() && line + 1 < self.lines.len() {
                    self.cursor = line_col_to_byte(self.text.as_str(), line + 1, col);
                }
            },
        }
        proof {
            assert(self@ == moved_down(v));
        }
    }
}


/// The text of the zone: the title (empty without a header), the tag
/// input, or the note's text.
pub open spec fn zone_text(v: EditorView) -> Seq<char> {
    match v.zone {
        EditZone::Title => match v.header {
            Some(h) => h.0,
            None => seq![],
        },
        EditZone::TagInput => v.tag_input,
        EditZone::Content => v.text,
    }
}

/// UTF-16 offset of byte `b` of `s`.
pub open spec fn utf16_at(s: Seq<char>, b: int) -> nat {
    utf16_len(s.take(cidx(s, b)))
}

/// Byte offset of UTF-16 offset `u` of `s` (see [`utf16_to_byte`]).
pub open spec fn byte_at(s: Seq<char>, u: nat) -> int {
    utf16_byte_from(s, 0, 0, u as int)
}

/// The text of the zone between two UTF-16 offsets, when they are in
/// order.
pub open spec fn text_in_range(v: EditorView, start: nat, end: nat) -> Option<Seq<char>> {
    let t = zone_text(v);
    let a = byte_at(t, start);
    let b = byte_at(t, end);
    if a <= b && b <= blen(t) {
        Some(t.subrange(cidx(t, a), cidx(t, b)))
    } else {
        None
    }
}

/// The selection in UTF-16 offsets: the cursor of the title or the tag
/// input, or the text's selection (the cursor without one).
pub open spec fn selected_utf16(v: EditorView) -> (nat, nat) {
    match v.zone {
        EditZone::Title => {
            let t = zone_text(v);
            let p = utf16_len(t.take(clamped(t, v.title_cursor)));
            (p, p)
        },
        EditZone::TagInput => {
            let p = utf16_len(v.tag_input.take(clamped(v.tag_input, v.tag_cursor)));
            (p, p)
        },
        EditZone::Content => match v.selection {
            Some((a, b)) => (utf16_at(v.text, a as int), utf16_at(v.text, b as int)),
            None => (utf16_at(v.text, v.cursor as int), utf16_at(v.text, v.cursor as int)),
        },
    }
}

/// The text's selection (or else cursor) lies on character boundaries.
pub open spec fn selection_on_boundaries(v: EditorView) -> bool {
    match v.selection {
        Some((a, b)) => is_boundary(v.text, a as int) && is_boundary(v.text, b as int),
        None => cursor_ok(v),
    }
}

/// The bytes that an input-method edit replaces: the given UTF-16 range,
/// or else the selection, or else the cursor.
pub open spec fn ime_range(v: EditorView, range: Option<(nat, nat)>) -> (int, int) {
    match range {
        Some((x, y)) => (byte_at(v.text, x), byte_at(v.text, y)),
        None => match v.selection {
            Some((a, b)) => (a as int, b as int),
            None => (v.cursor as int, v.cursor as int),
        },
    }
}

/// `p` put at the cursor of the title (when there is a header) or of the
/// tag input; the title's change makes the note dirty.
pub open spec fn zone_inserted(v: EditorView, p: Seq<char>) -> EditorView {
    match v.zone {
        EditZone::Title => match v.header {
            Some(h) => EditorView {
                header: Some((chars_inserted(h.0, v.title_cursor, p), h.1)),
                title_cursor: v.title_cursor + p.len(),
                dirty: true,
                ..v
            },
            None => v,
        },
        _ => EditorView {
            tag_input: chars_inserted(v.tag_input, v.tag_cursor, p),
            tag_cursor: v.tag_cursor + p.len(),
            ..v
        },
    }
}

/// Text committed by the input method: in the title or the tag input, put
/// at the cursor; in the text, in place of the bytes of [`ime_range`],
/// the cursor after it, the composition ended.
pub open spec fn ime_replaced(v: EditorView, range: Option<(nat, nat)>, p: Seq<char>) -> EditorView {
    if v.zone != EditZone::Content {
        zone_inserted(v, p)
    } else {
        let (a, b) = ime_range(v, range);
        EditorView {
            text: v.text.take(cidx(v.text, a)) + p + v.text.skip(cidx(v.text, b)),
            cursor: (a + blen(p)) as nat,
            selection: None,
            marked: None,
            dirty: true,
            ..v
        }
    }
}

/// The input method's edit can be done: the zone's cursor stays within
/// `usize`; in the text, the range is in order and on boundaries, and the
/// rope can take `p`.
pub open spec fn ime_replace_ok(
    ls: Seq<Seq<char>>,
    v: EditorView,
    range: Option<(nat, nat)>,
    p: Seq<char>,
) -> bool {
    let (a, b) = ime_range(v, range);
    &&& v.zone == EditZone::Title ==> v.title_cursor + p.len() <= usize::MAX
    &&& v.zone == EditZone::TagInput ==> v.tag_cursor + p.len() <= usize::MAX
    &&& v.zone == EditZone::Content ==> {
        &&& a <= b <= blen(v.text)
        &&& is_boundary(v.text, a)
        &&& is_boundary(v.text, b)
        &&& p.len() > 0 ==> chunks_fit(delete_leaves(ls, a, b), a, p)
        &&& blen(v.text) - (b - a) + blen(p) <= usize::MAX
    }
}

/// The text with the marked (composing) bytes removed, and the cursor
/// moved back over them.
pub open spec fn unmarked(v: EditorView) -> EditorView {
    match v.marked {
        Some((m0, m1)) => EditorView {
            text: cut(v.text, m0 as int, m1 as int),
            cursor: if v.cursor > m1 {
                (v.cursor - (m1 - m0)) as nat
            } else if v.cursor > m0 {
                m0
            } else {
                v.cursor
            },
            ..v
        },
        None => v,
    }
}

/// Text being composed by the input method: in the title or the tag
/// input, put at the cursor; in the text, the previous composition is
/// removed, and `p` is put at the start of [`ime_range`] (taken before the
/// removal) and marked, the cursor after it.
pub open spec fn ime_marked(v: EditorView, range: Option<(nat, nat)>, p: Seq<char>) -> EditorView {
    if v.zone != EditZone::Content {
        zone_inserted(v, p)
    } else {
        let a = ime_range(v, range).0;
        let w = unmarked(EditorView { selection: None, ..v });
        EditorView {
            text: splice(w.text, a, p),
            cursor: (a + blen(p)) as nat,
            marked: Some((a as nat, (a + blen(p)) as nat)),
            ..w
        }
    }
}

/// The rope's leaves once the marked bytes are removed.
pub open spec fn leaves_unmarked(ls: Seq<Seq<char>>, v: EditorView) -> Seq<Seq<char>> {
    match v.marked {
        Some((m0, m1)) => delete_leaves(ls, m0 as int, m1 as int),
        None => ls,
    }
}

/// The composition can be shown: the marked bytes lie in the text on
/// boundaries, the start of the range is a boundary of what is left, the
/// rope can take `p`, and the cursors stay within `usize`.
pub open spec fn ime_mark_ok(
    ls: Seq<Seq<char>>,
    v: EditorView,
    range: Option<(nat, nat)>,
    p: Seq<char>,
) -> bool {
    let a = ime_range(v, range).0;
    let w = unmarked(v);
    &&& v.zone == EditZone::Title ==> v.title_cursor + p.len() <= usize::MAX
    &&& v.zone == EditZone::TagInput ==> v.tag_cursor + p.len() <= usize::MAX
    &&& v.zone == EditZone::Content ==> {
        &&& match v.marked {
            Some((m0, m1)) => m0 <= m1 <= blen(v.text) && is_boundary(v.text, m0 as int)
                && is_boundary(v.text, m1 as int),
            None => true,
        }
        &&& 0 <= a <= blen(w.text)
        &&& is_boundary(w.text, a)
        &&& p.len() > 0 ==> chunks_fit(leaves_unmarked(ls, v), a, p)
        &&& blen(w.text) + blen(p) <= usize::MAX
    }
}

/// The end of `s` is a boundary, and so is each byte that
/// [`utf16_byte_from`] finds.
proof fn lemma_byte_at_boundary(s: Seq<char>, k: int, count: int, pos: int)
    requires
        0 <= k,
    ensures
        is_boundary(s, utf16_byte_from(s, k, count, pos)),
        0 <= utf16_byte_from(s, k, count, pos) <= blen(s),
    decreases s.len() - k,
{
    if k >= s.len() {
        assert(s.take(s.len() as int) =~= s);
        crate::utf8len::lemma_cidx_take(s, s.len() as int);
    } else if count >= pos {
        crate::utf8len::lemma_cidx_take(s, k);
        lemma_blen_mono(s, k, s.len() as int);
        assert(s.take(s.len() as int) =~= s);
    } else {
        lemma_byte_at_boundary(s, k + 1, count + crate::gui::util::u16_units(s[k]) as int, pos);
    }
}

impl EditorState {
    /// In an editor whose leaves and recorded changes hold only ASCII
    /// text, undo and redo are always ready, and the leaves after either
    /// are ASCII again.
    pub proof fn law_ascii_history_ready(self)
        requires
            crate::rope_spec::all_ascii(self.leaves()),
            forall|k: int|
                0 <= k < self.undo_log().len() ==> crate::rope_spec::ascii(
                    (#[trigger] self.undo_log()[k]).1,
                ) && crate::rope_spec::ascii(self.undo_log()[k].2),
            forall|k: int|
                0 <= k < self.redo_log().len() ==> crate::rope_spec::ascii(
                    (#[trigger] self.redo_log()[k]).1,
                ) && crate::rope_spec::ascii(self.redo_log()[k].2),
        ensures
            self.undo_ready(),
            self.redo_ready(),
            self.undo_log().len() > 0 ==> {
                let e = self.undo_log().last();
                crate::rope_spec::all_ascii(
                    insert_leaves(delete_leaves(self.leaves(), e.0, e.0 + blen(e.1)), e.0, e.2),
                )
            },
            self.redo_log().len() > 0 ==> {
                let e = self.redo_log().last();
                crate::rope_spec::all_ascii(
                    insert_leaves(delete_leaves(self.leaves(), e.0, e.0 + blen(e.2)), e.0, e.1),
                )
            },
    {
        self.buffer.law_ascii_history_fits();
    }

    /// The rope's leaves let the next undo put the removed text back.
    pub open spec fn undo_ready(&self) -> bool {
        self.undo_log().len() > 0 ==> {
            let e = self.undo_log().last();
            chunks_fit(delete_leaves(self.leaves(), e.0, e.0 + blen(e.1)), e.0, e.2)
        }
    }

    /// The rope's leaves let the next redo put the inserted text back.
    pub open spec fn redo_ready(&self) -> bool {
        self.redo_log().len() > 0 ==> {
            let e = self.redo_log().last();
            chunks_fit(delete_leaves(self.leaves(), e.0, e.0 + blen(e.2)), e.0, e.1)
        }
    }

    /// Undo: the buffer's last change reverted, the text taken from it, and
    /// the cursor kept within the text; false when there is nothing to
    /// undo.
    pub fn undo(&mut self) -> (r: bool)
        requires
            old(self).wf(),
            old(self).undo_ready(),
        ensures
            final(self).wf(),
            r == (old(self).undo_log().len() > 0),
            r ==> {
                let e = old(self).undo_log().last();
                let t = replace_at(old(self)@.text, e.0, e.1, e.2);
                &&& final(self)@ == (EditorView {
                    text: t,
                    cursor: if old(self)@.cursor > blen(t) {
                        blen(t)
                    } else {
                        old(self)@.cursor
                    },
                    ..old(self)@
                })
                &&& final(self).leaves() == insert_leaves(
                    delete_leaves(old(self).leaves(), e.0, e.0 + blen(e.1)),
                    e.0,
                    e.2,
                )
                &&& final(self).undo_log() == old(self).undo_log().drop_last()
                &&& final(self).redo_log() == old(self).redo_log().push(e)
            },
            !r ==> final(self)@ == old(self)@ && final(self).leaves() == old(self).leaves()
                && final(self).undo_log() == old(self).undo_log() && final(self).redo_log()
                == old(self).redo_log(),
    {
        if self.buffer.undo() {
            self.text = self.buffer.text();
            self.lines = split_lines(self.text.as_str());
            let n = self.text.as_str().as_bytes().len();
            if self.cursor > n {
                self.cursor = n;
            }
            true
        } else {
            false
        }
    }

    /// Redo: the last undone change re-applied, the text taken from the
    /// buffer, and the cursor kept within the text; false when there is
    /// nothing to redo.
    pub fn redo(&mut self) -> (r: bool)
        requires
            old(self).wf(),
            old(self).redo_ready(),
        ensures
            final(self).wf(),
            r == (old(self).redo_log().len() > 0),
            r ==> {
                let e = old(self).redo_log().last();
                let t = replace_at(old(self)@.text, e.0, e.2, e.1);
                &&& final(self)@ == (EditorView {
                    text: t,
                    cursor: if old(self)@.cursor > blen(t) {
                        blen(t)
                    } else {
                        old(self)@.cursor
                    },
                    ..old(self)@
                })
                &&& final(self).leaves() == insert_leaves(
                    delete_leaves(old(self).leaves(), e.0, e.0 + blen(e.2)),
                    e.0,
                    e.1,
                )
                &&& final(self).redo_log() == old(self).redo_log().drop_last()
                &&& final(self).undo_log() == old(self).undo_log().push(e)
            },
            !r ==> final(self)@ == old(self)@ && final(self).leaves() == old(self).leaves()
                && final(self).undo_log() == old(self).undo_log() && final(self).redo_log()
                == old(self).redo_log(),
    {
        if self.buffer.redo() {
            self.text = self.buffer.text();
            self.lines = split_lines(self.text.as_str());
            let n = self.text.as_str().as_bytes().len();
            if self.cursor > n {
                self.cursor = n;
            }
            true
        } else {
            false
        }
    }
}


/// The bounds of an optional range, as numbers.
pub open spec fn opt_bounds(r: Option<Range<usize>>) -> Option<(nat, nat)> {
    opt_span(r)
}

impl EditorState {
    /// The zone's text.
    fn zone_str(&self) -> (r: &str)
        ensures
            r@ == zone_text(self@),
    {
        match self.zone {
            EditZone::Title => match &self.header {
                Some(h) => h.title.as_str(),
                None => {
                    proof {
                        reveal_strlit("");
                    }
                    ""
                },
            },
            EditZone::TagInput => self.tag_input.as_str(),
            EditZone::Content => self.text.as_str(),
        }
    }

    /// The zone's text between two UTF-16 offsets (see [`text_in_range`]).
    pub fn text_for_range(&self, range: Range<usize>) -> (r: Option<String>)
        ensures
            match r {
                Some(t) => text_in_range(self@, range.start as nat, range.end as nat) == Some(t@),
                None => text_in_range(self@, range.start as nat, range.end as nat) is None,
            },
    {
        let t = self.zone_str();
        let a = crate::gui::util::utf16_to_byte(t, range.start);
        let b = crate::gui::util::utf16_to_byte(t, range.end);
        let n = t.as_bytes().len();
        if a <= b && b <= n {
            proof {
                lemma_byte_at_boundary(t@, 0, 0, range.start as int);
                lemma_byte_at_boundary(t@, 0, 0, range.end as int);
            }
            Some(byte_slice(t, a, b))
        } else {
            None
        }
    }

    /// The selection in UTF-16 offsets (see [`selected_utf16`]).
    pub fn selected_text_range(&self) -> (r: Range<usize>)
        requires
            self@.zone == EditZone::Content ==> selection_on_boundaries(self@),
        ensures
            (r.start as nat, r.end as nat) == selected_utf16(self@),
    {
        match self.zone {
            EditZone::Title | EditZone::TagInput => {
                let t = self.zone_str();
                let k = if self.zone == EditZone::Title {
                    self.title_cursor
                } else {
                    self.tag_cursor
                };
                let b = crate::gui::util::char_idx_to_byte(t, k);
                proof {
                    let j = clamped(t@, k as nat);
                    assert(t@.take(t@.len() as int) =~= t@);
                    crate::utf8len::lemma_cidx_take(t@, j);
                }
                let p = crate::gui::util::byte_to_utf16(t, b);
                p..p
            },
            EditZone::Content => {
                let t = self.text.as_str();
                match &self.selection {
                    Some(sel) => {
                        let a = crate::gui::util::byte_to_utf16(t, sel.start);
                        let b = crate::gui::util::byte_to_utf16(t, sel.end);
                        a..b
                    },
                    None => {
                        let p = crate::gui::util::byte_to_utf16(t, self.cursor);
                        p..p
                    },
                }
            },
        }
    }

    /// The marked (composing) bytes of the text in UTF-16 offsets.
    pub fn marked_text_range(&self) -> (r: Option<Range<usize>>)
        requires
            match self@.marked {
                Some((a, b)) => is_boundary(self@.text, a as int) && is_boundary(self@.text, b as int),
                None => true,
            },
        ensures
            match self@.marked {
                Some((a, b)) => r is Some && r.unwrap().start == utf16_at(self@.text, a as int)
                    && r.unwrap().end == utf16_at(self@.text, b as int),
                None => r is None,
            },
    {
        match &self.ime.marked_range {
            Some(m) => {
                let t = self.text.as_str();
                Some(crate::gui::util::byte_to_utf16(t, m.start)..crate::gui::util::byte_to_utf16(t, m.end))
            },
            None => None,
        }
    }

    /// Ends the composition.
    pub fn unmark_text(&mut self)
        ensures
            final(self)@ == (EditorView { marked: None, ..old(self)@ }),
            final(self).wf() == old(self).wf(),
            final(self).undo_log() == old(self).undo_log(),
            final(self).redo_log() == old(self).redo_log(),
            final(self).leaves() == old(self).leaves(),
    {
        self.ime.clear();
    }

    /// Puts `p` at the cursor of the title or the tag input (see
    /// [`zone_inserted`]).
    fn insert_in_zone(&mut self, p: &str)
        requires
            old(self)@.zone != EditZone::Content,
            old(self)@.zone == EditZone::Title ==> old(self)@.title_cursor + p@.len() <= usize::MAX,
            old(self)@.zone == EditZone::TagInput ==> old(self)@.tag_cursor + p@.len() <= usize::MAX,
        ensures
            final(self)@ == zone_inserted(old(self)@, p@),
            final(self).buffer == old(self).buffer,
            final(self).text == old(self).text,
            final(self).lines == old(self).lines,
    {
        let ghost v = self@;
        let n = chars_of(p).len();
        if self.zone == EditZone::Title {
            let hdr = self.header.take();
            match hdr {
                Some(mut h) => {
                    h.title = insert_chars(h.title.as_str(), self.title_cursor, p);
                    self.title_cursor += n;
                    self.dirty = true;
                    self.header = Some(h);
                },
                None => {},
            }
        } else {
            self.tag_input = insert_chars(self.tag_input.as_str(), self.tag_cursor, p);
            self.tag_cursor += n;
        }
        proof {
            assert(self@ == zone_inserted(v, p@));
        }
    }

    /// The bytes an input-method edit replaces (see [`ime_range`]); the
    /// selection is dropped.
    fn take_ime_range(&mut self, range: Option<Range<usize>>) -> (r: (usize, usize))
        ensures
            (r.0 as int, r.1 as int) == ime_range(old(self)@, opt_bounds(range)),
            final(self)@ == (EditorView { selection: None, ..old(self)@ }),
            final(self).buffer == old(self).buffer,
            final(self).text == old(self).text,
            final(self).lines == old(self).lines,
    {
        match range {
            Some(r) => {
                self.selection = None;
                let t = self.text.as_str();
                (crate::gui::util::utf16_to_byte(t, r.start), crate::gui::util::utf16_to_byte(t, r.end))
            },
            None => match self.selection.take() {
                Some(sel) => (sel.start, sel.end),
                None => (self.cursor, self.cursor),
            },
        }
    }

    /// Text committed by the input method (see [`ime_replaced`]).
    pub fn replace_text_in_range(&mut self, range: Option<Range<usize>>, new_text: &str)
        requires
            old(self).wf(),
            ime_replace_ok(old(self).leaves(), old(self)@, opt_bounds(range), new_text@),
        ensures
            final(self).wf(),
            final(self)@ == ime_replaced(old(self)@, opt_bounds(range), new_text@),
            old(self)@.zone != EditZone::Content ==> final(self).undo_log() == old(self).undo_log()
                && final(self).redo_log() == old(self).redo_log() && final(self).leaves()
                == old(self).leaves(),
            old(self)@.zone == EditZone::Content ==> {
                let (a, b) = ime_range(old(self)@, opt_bounds(range));
                let t = old(self)@.text;
                &&& final(self).undo_log() == old(self).undo_log().push(
                    (a, new_text@, t.subrange(cidx(t, a), cidx(t, b))),
                )
                &&& final(self).leaves() == insert_leaves(delete_leaves(old(self).leaves(), a, b), a, new_text@)
                &&& final(self).redo_log().len() == 0
            },
    {
        let ghost v = self@;
        if self.zone != EditZone::Content {
            self.insert_in_zone(new_text);
            return;
        }
        let (a, b) = self.take_ime_range(range);
        self.buffer.edit(a, b, new_text);
        self.text = self.buffer.text();
        self.lines = split_lines(self.text.as_str());
        self.cursor = a + new_text.as_bytes().len();
        self.ime.clear();
        self.dirty = true;
        proof {
            assert(self@ == ime_replaced(v, opt_bounds(range), new_text@));
        }
    }

    /// Text being composed by the input method (see [`ime_marked`]).
    pub fn replace_and_mark_text_in_range(
        &mut self,
        range: Option<Range<usize>>,
        new_text: &str,
        _new_selected_range: Option<Range<usize>>,
    )
        requires
            old(self).wf(),
            ime_mark_ok(old(self).leaves(), old(self)@, opt_bounds(range), new_text@),
        ensures
            final(self).wf(),
            final(self)@ == ime_marked(old(self)@, opt_bounds(range), new_text@),
            old(self)@.zone != EditZone::Content ==> final(self).undo_log() == old(self).undo_log()
                && final(self).redo_log() == old(self).redo_log() && final(self).leaves()
                == old(self).leaves(),
            old(self)@.zone == EditZone::Content ==> final(self).leaves() == insert_leaves(
                leaves_unmarked(old(self).leaves(), old(self)@),
                ime_range(old(self)@, opt_bounds(range)).0,
                new_text@,
            ),
    {
        let ghost v = self@;
        if self.zone != EditZone::Content {
            self.insert_in_zone(new_text);
            return;
        }
        let (a, _b) = self.take_ime_range(range);
        match &self.ime.marked_range {
            Some(m) => {
                let m0 = m.start;
                let m1 = m.end;
                self.delete_text(m0, m1);
                if self.cursor > m1 {
                    self.cursor = self.cursor - (m1 - m0);
                } else if self.cursor > m0 {
                    self.cursor = m0;
                }
            },
            None => {},
        }
        proof {
            assert(self@ == unmarked(EditorView { selection: None, ..v }));
            lemma_boundary_split(self@.text, a as int);
        }
        self.insert_text(a, new_text);
        let e = a + new_text.as_bytes().len();
        self.ime.set_marked(a..e);
        self.cursor = e;
        proof {
            assert(self@ == ime_marked(v, opt_bounds(range), new_text@));
        }
    }
}


/// The header with `tag` among its tags (added last when it is new); the
/// note is dirty. Nothing changes without a header.
pub open spec fn tag_added(v: EditorView, tag: Seq<char>) -> EditorView {
    match v.header {
        Some(h) => EditorView {
            header: Some(
                (
                    h.0,
                    if h.1.contains(tag) {
                        h.1
                    } else {
                        h.1.push(tag)
                    },
                ),
            ),
            dirty: true,
            ..v
        },
        None => v,
    }
}

/// The header without `tag` among its tags; the note is dirty. Nothing
/// changes without a header.
pub open spec fn tag_removed(v: EditorView, tag: Seq<char>) -> EditorView {
    match v.header {
        Some(h) => EditorView {
            header: Some((h.0, h.1.filter(|x: Seq<char>| x != tag))),
            dirty: true,
            ..v
        },
        None => v,
    }
}

/// A note opened with its text `body` and its header: nothing selected,
/// the cursor at the start, in the title when the header's title is
/// empty and in the text otherwise.
pub open spec fn opened(body: Seq<char>, header: Option<(Seq<char>, Seq<Seq<char>>)>) -> EditorView {
    EditorView {
        text: body,
        cursor: 0,
        selection: None,
        marked: None,
        dirty: false,
        header,
        tag_input: seq![],
        tag_cursor: 0,
        zone: match header {
            Some(h) => if h.0.len() == 0 {
                EditZone::Title
            } else {
                EditZone::Content
            },
            None => EditZone::Content,
        },
        title_cursor: 0,
        dragging: false,
    }
}

impl EditorState {
    /// Opens a note whose file held `body` after its header.
    pub fn from_note(body: &str, header: Option<NoteHeader>) -> (r: Self)
        requires
            chunks_ok(body@),
        ensures
            r.wf(),
            r@ == opened(body@, header_view(header)),
            r.undo_log().len() == 0,
            r.redo_log().len() == 0,
            r.leaves() == chunks(body@),
    {
        let zone = match &header {
            Some(h) => if h.title.as_str().is_empty() {
                EditZone::Title
            } else {
                EditZone::Content
            },
            None => EditZone::Content,
        };
        let text = body.to_string();
        let lines = split_lines(text.as_str());
        let r = EditorState {
            buffer: Buffer::from(body),
            text,
            lines,
            cursor: 0,
            selection: None,
            ime: ImeState::new(),
            dirty: false,
            header,
            tag_input: String::new(),
            tag_cursor: 0,
            zone,
            title_cursor: 0,
            dragging: false,
        };
        proof {
            assert(r.tag_input@ =~= seq![]);
        }
        r
    }

    /// Adds a tag (see [`tag_added`]).
    pub fn add_tag(&mut self, tag: String)
        ensures
            final(self)@ == tag_added(old(self)@, tag@),
            final(self).wf() == old(self).wf(),
            final(self).undo_log() == old(self).undo_log(),
            final(self).redo_log() == old(self).redo_log(),
            final(self).leaves() == old(self).leaves(),
    {
        let ghost v = self@;
        let hdr = self.header.take();
        match hdr {
            Some(mut h) => {
                crate::text::push_unique(&mut h.tags, tag);
                self.dirty = true;
                self.header = Some(h);
            },
            None => {},
        }
        proof {
            assert(self@ == tag_added(v, tag@));
        }
    }

    /// Removes a tag (see [`tag_removed`]).
    pub fn remove_tag(&mut self, tag: &str)
        ensures
            final(self)@ == tag_removed(old(self)@, tag@),
            final(self).wf() == old(self).wf(),
            final(self).undo_log() == old(self).undo_log(),
            final(self).redo_log() == old(self).redo_log(),
            final(self).leaves() == old(self).leaves(),
    {
        let ghost v = self@;
        let hdr = self.header.take();
        match hdr {
            Some(h) => {
                let ghost f = |x: Seq<char>| x != tag@;
                let target = tag.to_string();
                let mut kept: Vec<String> = Vec::new();
                let mut i: usize = 0;
                while i < h.tags.len()
                    invariant
                        i <= h.tags@.len(),
                        string_views(kept@) == string_views(h.tags@).take(i as int).filter(f),
                        f == (|x: Seq<char>| x != tag@),
                        target@ == tag@,
                    decreases h.tags@.len() - i,
                {
                    let ghost before = string_views(kept@);
                    let t = h.tags[i].clone();
                    let keep = !(t == target);
                    proof {
                        let q = string_views(h.tags@).take(i + 1);
                        assert(q.drop_last() =~= string_views(h.tags@).take(i as int));
                        assert(q.last() == h.tags@[i as int]@);
                    }
                    proof {
                        assert(t@ == h.tags@[i as int]@);
                        assert(keep == f(h.tags@[i as int]@));
                    }
                    if keep {
                        kept.push(t);
                        proof {
                            assert(string_views(kept@) =~= before.push(h.tags@[i as int]@));
                        }
                    }
                    proof {
                        let q = string_views(h.tags@).take(i + 1);
                        assert(q.filter(f) == if f(q.last()) {
                            q.drop_last().filter(f).push(q.last())
                        } else {
                            q.drop_last().filter(f)
                        }) by {
                            reveal(Seq::filter);
                        }
                    }
                    i += 1;
                }
                proof {
                    assert(string_views(h.tags@).take(i as int) =~= string_views(h.tags@));
                }
                self.dirty = true;
                self.header = Some(NoteHeader { title: h.title, tags: kept });
            },
            None => {},
        }
        proof {
            assert(self@ == tag_removed(v, tag@));
        }
    }

    /// Before saving, a tag input being edited is committed (see
    /// [`committed`]).
    pub fn prepare_save(&mut self)
        ensures
            final(self)@ == if old(self)@.zone == EditZone::TagInput {
                committed(old(self)@)
            } else {
                old(self)@
            },
            final(self).wf() == old(self).wf(),
            final(self).undo_log() == old(self).undo_log(),
            final(self).redo_log() == old(self).redo_log(),
            final(self).leaves() == old(self).leaves(),
    {
        if self.zone == EditZone::TagInput {
            self.commit_tag_input();
        }
    }

    /// The note was written out: nothing is unsaved.
    pub fn mark_saved(&mut self)
        ensures
            final(self)@ == (EditorView { dirty: false, ..old(self)@ }),
            final(self).wf() == old(self).wf(),
            final(self).undo_log() == old(self).undo_log(),
            final(self).redo_log() == old(self).redo_log(),
            final(self).leaves() == old(self).leaves(),
    {
        self.dirty = false;
    }

    /// A click on the title: editing it, the cursor at its end, the
    /// selection dropped.
    pub fn click_title(&mut self)
        ensures
            final(self)@ == (EditorView {
                zone: EditZone::Title,
                selection: None,
                title_cursor: title_len(old(self)@),
                ..old(self)@
            }),
            final(self).wf() == old(self).wf(),
            final(self).undo_log() == old(self).undo_log(),
            final(self).redo_log() == old(self).redo_log(),
            final(self).leaves() == old(self).leaves(),
    {
        self.zone = EditZone::Title;
        self.selection = None;
        self.title_cursor = match &self.header {
            Some(h) => chars_of(h.title.as_str()).len(),
            None => 0,
        };
    }

    /// A click on the tags: editing the tag input, filled with the tags
    /// (see [`populated`]).
    pub fn click_tags(&mut self)
        ensures
            final(self)@ == populated(EditorView { zone: EditZone::TagInput, ..old(self)@ }),
            final(self).wf() == old(self).wf(),
            final(self).undo_log() == old(self).undo_log(),
            final(self).redo_log() == old(self).redo_log(),
            final(self).leaves() == old(self).leaves(),
    {
        self.zone = EditZone::TagInput;
        self.populate_tag_input();
    }

    /// A press on line `line` of the text at column `col`: the cursor
    /// there, nothing selected, a drag begun.
    pub fn press_text(&mut self, line: usize, col: usize)
        requires
            blen(old(self)@.text) < usize::MAX,
        ensures
            final(self)@ == (EditorView {
                zone: EditZone::Content,
                dragging: true,
                cursor: line_col_byte(old(self)@.text, line as int, col as int) as nat,
                selection: None,
                ..old(self)@
            }),
            final(self).wf() == old(self).wf(),
            final(self).undo_log() == old(self).undo_log(),
            final(self).redo_log() == old(self).redo_log(),
            final(self).leaves() == old(self).leaves(),
    {
        self.zone = EditZone::Content;
        self.dragging = true;
        self.cursor = line_col_to_byte(self.text.as_str(), line, col);
        self.selection = None;
    }

    /// The pointer moved to line `line`, column `col` of the text: while
    /// dragging, the selection stretches there (see [`extended`]).
    pub fn drag_to(&mut self, line: usize, col: usize)
        requires
            blen(old(self)@.text) < usize::MAX,
        ensures
            final(self)@ == if old(self)@.dragging {
                extended(old(self)@, line_col_byte(old(self)@.text, line as int, col as int) as nat)
            } else {
                old(self)@
            },
            final(self).wf() == old(self).wf(),
            final(self).undo_log() == old(self).undo_log(),
            final(self).redo_log() == old(self).redo_log(),
            final(self).leaves() == old(self).leaves(),
    {
        if !self.dragging {
            return;
        }
        let p = line_col_to_byte(self.text.as_str(), line, col);
        self.extend_selection(p);
    }

    /// The mouse button was released: the drag ends.
    pub fn release(&mut self)
        ensures
            final(self)@ == (EditorView { dragging: false, ..old(self)@ }),
            final(self).wf() == old(self).wf(),
            final(self).undo_log() == old(self).undo_log(),
            final(self).redo_log() == old(self).redo_log(),
            final(self).leaves() == old(self).leaves(),
    {
        self.dragging = false;
    }
}


/// After writing text at the cursor, nothing is selected and the cursor
/// lies on a character boundary of the new text, after what was written.
pub proof fn law_typed_cursor(ls: Seq<Seq<char>>, v: EditorView, p: Seq<char>)
    requires
        typing_ok(ls, v, p),
    ensures
        typed(v, p).selection is None,
        cursor_ok(typed(v, p)),
        blen(typed(v, p).text) == blen(without_selection(v).text) + blen(p),
{
    let w = without_selection(v);
    assert(is_boundary(w.text, w.cursor as int)) by {
        if let Some((a, b)) = v.selection {
            lemma_boundary_split(v.text, a as int);
            lemma_boundary_split(v.text, b as int);
            let k = cidx(v.text, a as int);
            assert(w.text.take(k) =~= v.text.take(k));
            crate::utf8len::lemma_cidx_take(w.text, k);
        }
    }
    lemma_boundary_split(w.text, w.cursor as int);
    let k = cidx(w.text, w.cursor as int);
    let r = splice(w.text, w.cursor as int, p);
    assert(r == w.text.take(k) + p + w.text.skip(k));
    assert(r.take(k + p.len()) =~= w.text.take(k) + p);
    crate::utf8len::lemma_blen_concat(w.text.take(k), p);
    crate::utf8len::lemma_cidx_take(r, k + p.len());
    crate::utf8len::lemma_blen_concat(w.text.take(k) + p, w.text.skip(k));
}

/// Writing text at the cursor, with nothing selected, and then undoing
/// the change that it recorded gives back the text.
pub proof fn law_type_then_undo(v: EditorView, p: Seq<char>)
    requires
        v.selection is None,
        cursor_ok(v),
    ensures
        ({
            let e = typed_log(seq![], v, p).last();
            replace_at(typed(v, p).text, e.0, e.1, e.2) == v.text
        }),
{
    let t = v.text;
    let c = v.cursor as int;
    lemma_boundary_split(t, c);
    crate::rope_spec::law_undo_edit(t, c, c, p);
    assert(t.subrange(cidx(t, c), cidx(t, c)) =~= Seq::<char>::empty());
}

/// Writing text in place of a selection records two changes; undoing the
/// second (the insertion) and then the first (the removal) gives back the
/// text.
pub proof fn law_type_over_selection_then_undo(v: EditorView, p: Seq<char>)
    requires
        v.selection is Some,
        selection_ok(v),
    ensures
        ({
            let log = typed_log(seq![], v, p);
            let e1 = log[0];
            let e2 = log[1];
            &&& log.len() == 2
            &&& replace_at(typed(v, p).text, e2.0, e2.1, e2.2) == without_selection(v).text
            &&& replace_at(without_selection(v).text, e1.0, e1.1, e1.2) == v.text
        }),
{
    let t = v.text;
    let (a, b) = v.selection.unwrap();
    crate::rope_spec::law_undo_edit(t, a as int, b as int, Seq::<char>::empty());
    let w = without_selection(v);
    assert(t.take(cidx(t, a as int)) + Seq::<char>::empty() + t.skip(cidx(t, b as int)) =~= w.text);
    lemma_boundary_split(t, a as int);
    lemma_boundary_split(t, b as int);
    let k = cidx(t, a as int);
    assert(w.text.take(k) =~= t.take(k));
    crate::utf8len::lemma_cidx_take(w.text, k);
    assert(cursor_ok(EditorView { selection: None, ..w }));
    law_type_then_undo(EditorView { selection: None, ..w }, p);
}

/// Erasing the character before the cursor, with nothing selected, and
/// then undoing the change that it recorded gives back the text.
pub proof fn law_backspace_then_undo(v: EditorView)
    requires
        v.zone == EditZone::Content,
        v.selection is None,
        v.cursor > 0,
        cursor_ok(v),
    ensures
        ({
            let e = backspace_log(seq![], v).last();
            replace_at(backspaced(v).text, e.0, e.1, e.2) == v.text
        }),
{
    let t = v.text;
    let c = v.cursor as int;
    lemma_boundary_split(t, c);
    let k = cidx(t, c);
    crate::utf8len::lemma_cidx_take(t, k - 1);
    lemma_blen_mono(t, k - 1, k);
    let st = prev_pos(t, c);
    crate::rope_spec::law_undo_edit(t, st, c, Seq::<char>::empty());
    assert(t.take(cidx(t, st)) + Seq::<char>::empty() + t.skip(k) =~= cut(t, st, c));
}

/// Erasing the selection, and then undoing the change that it recorded,
/// gives back the text.
pub proof fn law_erase_selection_then_undo(v: EditorView)
    requires
        v.zone == EditZone::Content,
        v.selection is Some,
        selection_ok(v),
    ensures
        ({
            let e = backspace_log(seq![], v).last();
            replace_at(backspaced(v).text, e.0, e.1, e.2) == v.text
        }),
{
    let t = v.text;
    let (a, b) = v.selection.unwrap();
    crate::rope_spec::law_undo_edit(t, a as int, b as int, Seq::<char>::empty());
    assert(t.take(cidx(t, a as int)) + Seq::<char>::empty() + t.skip(cidx(t, b as int)) =~= cut(
        t,
        a as int,
        b as int,
    ));
}


/// The tags are distinct words: none is empty or holds whitespace, and no
/// two are the same.
pub open spec fn tags_are_words(ts: Seq<Seq<char>>) -> bool {
    &&& distinct(ts)
    &&& forall|i: int| 0 <= i < ts.len() ==> #[trigger] ts[i].len() > 0
    &&& forall|i: int, j: int| 0 <= i < ts.len() && 0 <= j < ts[i].len() ==> !is_ws(#[trigger] ts[i][j])
}

/// The tokens `#tag` of the tags.
pub open spec fn hashed(ts: Seq<Seq<char>>) -> Seq<Seq<char>> {
    ts.map_values(|t: Seq<char>| seq!['#'] + t)
}

proof fn lemma_tag_line_concat(a: Seq<Seq<char>>, b: Seq<Seq<char>>)
    ensures
        tag_line(a + b) == tag_line(a) + tag_line(b),
    decreases b.len(),
{
    if b.len() == 0 {
        assert(a + b =~= a);
        assert(tag_line(a) + tag_line(b) =~= tag_line(a));
    } else {
        assert((a + b).drop_last() =~= a + b.drop_last());
        lemma_tag_line_concat(a, b.drop_last());
        assert(tag_line(a + b) =~= tag_line(a) + tag_line(b));
    }
}

proof fn lemma_tag_line_single(t: Seq<char>)
    ensures
        tag_line(seq![t]) == seq!['#'] + t + seq![' '],
{
    assert(seq![t].drop_last() =~= Seq::<Seq<char>>::empty());
    assert(tag_line(Seq::<Seq<char>>::empty()) =~= Seq::<char>::empty());
    assert(Seq::<char>::empty() + seq!['#'] + t + seq![' '] =~= seq!['#'] + t + seq![' ']);
}

/// The characters of the tag line are '#', ' ' or characters of tags.
proof fn lemma_tag_line_chars(ts: Seq<Seq<char>>)
    requires
        forall|i: int, j: int| 0 <= i < ts.len() && 0 <= j < ts[i].len() ==> !is_ws(#[trigger] ts[i][j]),
    ensures
        forall|k: int| 0 <= k < tag_line(ts).len() ==> {
            let c = #[trigger] tag_line(ts)[k];
            c == '#' || c == ' ' || !is_ws(c)
        },
    decreases ts.len(),
{
    if ts.len() > 0 {
        let p = ts.drop_last();
        assert forall|i: int, j: int| 0 <= i < p.len() && 0 <= j < p[i].len() implies !is_ws(#[trigger] p[i][j]) by {
            assert(p[i] == ts[i]);
        }
        lemma_tag_line_chars(p);
        let t = ts.last();
        let l = tag_line(ts);
        assert forall|k: int| 0 <= k < l.len() implies {
            let c = #[trigger] l[k];
            c == '#' || c == ' ' || !is_ws(c)
        } by {
            let pl = tag_line(p);
            if k < pl.len() {
                assert(l[k] == pl[k]);
            } else if k == pl.len() {
                assert(l[k] == '#');
            } else if k < pl.len() + 1 + t.len() {
                assert(l[k] == t[k - pl.len() - 1]);
                assert(t == ts[ts.len() - 1]);
            } else {
                assert(l[k] == ' ');
            }
        }
    }
}

/// The end of a run of non-whitespace characters.
proof fn lemma_token_end_at(s: Seq<char>, j: int, e: int)
    requires
        0 <= j <= e <= s.len(),
        forall|k: int| j <= k < e ==> !is_ws(#[trigger] s[k]),
        e < s.len() ==> is_ws(s[e]),
    ensures
        crate::gui::util::token_end(s, j) == e,
    decreases e - j,
{
    if j < e {
        lemma_token_end_at(s, j + 1, e);
    }
}

/// Reading the tag line from the start of the tag `k` gives the tokens
/// `#tag` of the tags from `k` on.
proof fn lemma_tag_line_tokens(ts: Seq<Seq<char>>, k: int)
    requires
        0 <= k <= ts.len(),
        forall|i: int| 0 <= i < ts.len() ==> #[trigger] ts[i].len() > 0,
        forall|i: int, j: int| 0 <= i < ts.len() && 0 <= j < ts[i].len() ==> !is_ws(#[trigger] ts[i][j]),
    ensures
        crate::gui::util::tokens_from(tag_line(ts), tag_line(ts.take(k)).len() as int) == hashed(
            ts.skip(k),
        ),
    decreases ts.len() - k,
{
    let s = tag_line(ts);
    let pos = tag_line(ts.take(k)).len() as int;
    lemma_tag_line_concat(ts.take(k), ts.skip(k));
    assert(ts.take(k) + ts.skip(k) =~= ts);
    if k == ts.len() {
        assert(ts.skip(k) =~= Seq::<Seq<char>>::empty());
        assert(s.len() == pos);
        assert(hashed(ts.skip(k)) =~= Seq::<Seq<char>>::empty());
        assert(skip_ws_from(s, pos) == pos);
        assert(crate::gui::util::tokens_from(s, pos) =~= Seq::<Seq<char>>::empty());
    } else {
        let t = ts[k];
        let rest = ts.skip(k + 1);
        assert(ts.skip(k) =~= seq![t] + rest);
        lemma_tag_line_concat(seq![t], rest);
        lemma_tag_line_single(t);
        let pre = tag_line(ts.take(k));
        assert(s =~= pre + (seq!['#'] + t + seq![' ']) + tag_line(rest));
        let e = pos + 1 + t.len();
        assert(s[pos] == '#');
        assert(s[e] == ' ');
        assert forall|q: int| pos <= q < e implies !is_ws(#[trigger] s[q]) by {
            if q > pos {
                assert(s[q] == t[q - pos - 1]);
                assert(t == ts[k]);
            }
        }
        crate::text::lemma_skip_ws_bounds(s, pos);
        assert(skip_ws_from(s, pos) == pos);
        lemma_token_end_at(s, pos, e);
        assert(s.subrange(pos, e) =~= seq!['#'] + t);
        assert(ts.take(k + 1) =~= ts.take(k) + seq![t]);
        lemma_tag_line_concat(ts.take(k), seq![t]);
        let pos2 = tag_line(ts.take(k + 1)).len() as int;
        assert(pos2 == e + 1);
        lemma_tag_line_tokens(ts, k + 1);
        assert(skip_ws_from(s, e) == skip_ws_from(s, e + 1));
        if e + 1 < s.len() {
            assert(ts.skip(k + 1).len() > 0);
            assert(s[e + 1] == '#') by {
                let t2 = ts[k + 1];
                assert(rest =~= seq![t2] + ts.skip(k + 2));
                lemma_tag_line_concat(seq![t2], ts.skip(k + 2));
                lemma_tag_line_single(t2);
            }
        }
        crate::text::lemma_skip_ws_bounds(s, e + 1);
        assert(skip_ws_from(s, e + 1) == e + 1);
        assert(hashed(ts.skip(k)) =~= seq![seq!['#'] + t] + hashed(ts.skip(k + 1)));
        assert(crate::gui::util::tokens_from(s, e) == crate::gui::util::tokens_from(s, e + 1));
        assert(crate::gui::util::tokens_from(s, pos) == seq![seq!['#'] + t]
            + crate::gui::util::tokens_from(s, e));
    }
}

proof fn lemma_tags_of_hashed(ts: Seq<Seq<char>>)
    requires
        forall|i: int| 0 <= i < ts.len() ==> #[trigger] ts[i].len() > 0,
    ensures
        crate::gui::util::tags_of(hashed(ts)) == ts,
    decreases ts.len(),
{
    if ts.len() > 0 {
        let h = hashed(ts);
        assert(h.drop_first() =~= hashed(ts.drop_first()));
        assert(ts.drop_first().len() < ts.len());
        assert forall|i: int| 0 <= i < ts.drop_first().len() implies #[trigger] ts.drop_first()[i].len() > 0 by {
            assert(ts.drop_first()[i] == ts[i + 1]);
        }
        lemma_tags_of_hashed(ts.drop_first());
        assert(ts[0].len() > 0);
        assert(h[0] == seq!['#'] + ts[0]);
        assert(h[0].skip(1) =~= ts[0]);
        assert(seq![ts[0]] + ts.drop_first() =~= ts);
    }
}

proof fn lemma_dedup_distinct(ts: Seq<Seq<char>>)
    requires
        distinct(ts),
    ensures
        dedup(ts) == ts,
    decreases ts.len(),
{
    if ts.len() > 0 {
        let p = ts.drop_last();
        assert(distinct(p));
        lemma_dedup_distinct(p);
        assert(!p.contains(ts.last())) by {
            if p.contains(ts.last()) {
                let i = choose|i: int| 0 <= i < p.len() && p[i] == ts.last();
                assert(ts[i] == ts[ts.len() - 1]);
            }
        }
        assert(p.push(ts.last()) =~= ts);
    }
}

/// Moving into the tag input (which fills it with the tags) and leaving it
/// again (which commits it) gives back the tags, when they are distinct
/// words.
pub proof fn law_tag_input_round_trip(v: EditorView)
    requires
        v.header is Some,
        tags_are_words(v.header.unwrap().1),
    ensures
        committed(populated(v)).header == v.header,
{
    let ts = v.header.unwrap().1;
    let s = tag_line(ts);
    if s.len() > 0 {
        lemma_tag_line_chars(ts);
        assert(normalized(s) =~= s) by {
            assert forall|k: int| 0 <= k < s.len() implies normalized(s)[k] == s[k] by {
                let c = s[k];
                assert(c == '#' || c == ' ' || !is_ws(c));
                assert(is_ws('\u{3000}'));
            }
        }
        lemma_tag_line_tokens(ts, 0);
        assert(ts.take(0) =~= Seq::<Seq<char>>::empty());
        assert(tag_line(ts.take(0)).len() == 0);
        assert(ts.skip(0) =~= ts);
        lemma_tags_of_hashed(ts);
        lemma_dedup_distinct(ts);
    }
}

} // verus!
