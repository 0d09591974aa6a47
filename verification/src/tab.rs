//! One open document and the engine that edits it.
//!
//! A tab owns the rows of a document, a cursor in character units, and a
//! queue of input events not yet applied. Each event is applied as one atomic
//! transition; the spec functions [`step_event`] and friends say exactly what
//! every transition does to the rows and the cursor, and the invariant
//! [`inv_state`] — cursor on a row, column on the row's characters, every row
//! made of complete characters — holds in every reachable state.

use vstd::prelude::*;

use crate::cursor::Cursor;
use crate::encoding::{
    byte_offset_of, char_count, is_well_formed, lemma_cc_concat, lemma_char_count_le_len,
    lemma_off_concat_hi, lemma_off_concat_lo, lemma_offset_le_len, lemma_offset_succ,
    lemma_wf_concat, lemma_wf_skip, lemma_wf_take, rows_view, well_formed,
};
use crate::error::EditError;
use crate::file::ReadFile;
use crate::lifecycle::Lifecycle;
use crate::translate::{char_idx_to_byte, count_chars, replace_range};

verus! {

/// One abstract input event, in the engine's taxonomy. Events the taxonomy
/// does not classify arrive as `Unknown` and are ignored without effect.
#[derive(Debug)]
pub enum InputEvent {
    /// Insert the given bytes at the cursor.
    InsertText(Vec<u8>),
    /// Remove the character just before the cursor; at column zero, a no-op.
    DeleteBackward,
    /// Remove the character at the cursor; at the row's end, a no-op.
    DeleteForward,
    /// Step the column back by one; at column zero, a no-op.
    MoveLeft,
    /// Step the column forward by one; at the row's end, a no-op.
    MoveRight,
    /// Step to the previous row, clamping the column; on the first row, a no-op.
    MoveUp,
    /// Step to the next row, clamping the column; on the last row, a no-op.
    MoveDown,
    /// Jump to column zero.
    MoveHome,
    /// Jump to the position past the row's last character.
    MoveEnd,
    /// An event outside the taxonomy.
    Unknown,
}

/// Mathematical view of a tab: the rows, and the cursor in character units.
#[verifier::ext_equal]
pub ghost struct TabView {
    /// The rows, top to bottom.
    pub lines: Seq<Seq<u8>>,
    /// Row the cursor is on.
    pub row: nat,
    /// Column of the cursor, counted in characters.
    pub col: nat,
}

/// The row the cursor addresses.
pub open spec fn current_row(s: TabView) -> Seq<u8> {
    s.lines[s.row as int]
}

/// The state invariant: at least one row, the cursor on a row, the column at
/// most the addressed row's character count, and every row made of complete
/// characters.
pub open spec fn inv_state(s: TabView) -> bool {
    &&& s.lines.len() >= 1
    &&& s.row < s.lines.len()
    &&& s.col <= char_count(current_row(s))
    &&& forall|i: int| 0 <= i < s.lines.len() ==> well_formed(#[trigger] s.lines[i])
}

/// A column, pulled back onto the given row if it lies past its last character.
pub open spec fn clamp_col(c: nat, line: Seq<u8>) -> nat {
    if c <= char_count(line) {
        c
    } else {
        char_count(line)
    }
}

/// Jump to column zero.
pub open spec fn step_move_home(s: TabView) -> TabView {
    TabView { col: 0, ..s }
}

/// Jump past the row's last character.
pub open spec fn step_move_end(s: TabView) -> TabView {
    TabView { col: char_count(current_row(s)), ..s }
}

/// Step the column back by one; at column zero, a no-op.
pub open spec fn step_move_left(s: TabView) -> TabView {
    if s.col > 0 {
        TabView { col: (s.col - 1) as nat, ..s }
    } else {
        s
    }
}

/// Step the column forward by one; at the row's end, a no-op.
pub open spec fn step_move_right(s: TabView) -> TabView {
    if s.col < char_count(current_row(s)) {
        TabView { col: (s.col + 1) as nat, ..s }
    } else {
        s
    }
}

/// Step to the previous row, clamping the column; on the first row, a no-op.
pub open spec fn step_move_up(s: TabView) -> TabView {
    if s.row > 0 {
        let r = (s.row - 1) as nat;
        TabView { row: r, col: clamp_col(s.col, s.lines[r as int]), ..s }
    } else {
        s
    }
}

/// Step to the next row, clamping the column; on the last row, a no-op.
pub open spec fn step_move_down(s: TabView) -> TabView {
    if s.row + 1 < s.lines.len() {
        let r = (s.row + 1) as nat;
        TabView { row: r, col: clamp_col(s.col, s.lines[r as int]), ..s }
    } else {
        s
    }
}

/// Insert `t` at the cursor: the bytes go in at the cursor's byte offset and
/// the column advances by the characters inserted.
pub open spec fn step_insert(s: TabView, t: Seq<u8>) -> TabView {
    let line = current_row(s);
    let o = byte_offset_of(line, s.col) as int;
    TabView {
        lines: s.lines.update(s.row as int, line.take(o) + t + line.skip(o)),
        col: s.col + char_count(t),
        ..s
    }
}

/// Remove the character before the cursor; at column zero, a no-op — the
/// engine never merges rows.
pub open spec fn step_delete_backward(s: TabView) -> TabView {
    if s.col > 0 {
        let line = current_row(s);
        let o1 = byte_offset_of(line, (s.col - 1) as nat) as int;
        let o2 = byte_offset_of(line, s.col) as int;
        TabView {
            lines: s.lines.update(s.row as int, line.take(o1) + line.skip(o2)),
            col: (s.col - 1) as nat,
            ..s
        }
    } else {
        s
    }
}

/// Remove the character at the cursor, leaving the column in place; at the
/// row's end, a no-op.
pub open spec fn step_delete_forward(s: TabView) -> TabView {
    if s.col < char_count(current_row(s)) {
        let line = current_row(s);
        let o1 = byte_offset_of(line, s.col) as int;
        let o2 = byte_offset_of(line, (s.col + 1) as nat) as int;
        TabView { lines: s.lines.update(s.row as int, line.take(o1) + line.skip(o2)), ..s }
    } else {
        s
    }
}

/// Whether an insertion can be applied at all: its bytes must be complete
/// characters and the edited row must stay addressable by byte index.
pub open spec fn insert_fits(s: TabView, t: Seq<u8>) -> bool {
    well_formed(t) && current_row(s).len() + t.len() <= usize::MAX
}

/// Whether the engine drops `ev` in state `s` instead of applying it.
pub open spec fn event_dropped(s: TabView, ev: InputEvent) -> bool {
    match ev {
        InputEvent::InsertText(t) => !insert_fits(s, t@),
        _ => false,
    }
}

/// The transition one event makes: the state after the event, read off the
/// state before it. A dropped insertion leaves the state untouched.
pub open spec fn step_event(s: TabView, ev: InputEvent) -> TabView {
    match ev {
        InputEvent::InsertText(t) => if insert_fits(s, t@) {
            step_insert(s, t@)
        } else {
            s
        },
        InputEvent::DeleteBackward => step_delete_backward(s),
        InputEvent::DeleteForward => step_delete_forward(s),
        InputEvent::MoveLeft => step_move_left(s),
        InputEvent::MoveRight => step_move_right(s),
        InputEvent::MoveUp => step_move_up(s),
        InputEvent::MoveDown => step_move_down(s),
        InputEvent::MoveHome => step_move_home(s),
        InputEvent::MoveEnd => step_move_end(s),
        InputEvent::Unknown => s,
    }
}

/// Splicing complete characters into a row at a character boundary leaves
/// complete characters, and the character counts add up.
proof fn lemma_insert_edit(line: Seq<u8>, t: Seq<u8>, c: nat)
    requires
        well_formed(line),
        well_formed(t),
        c <= char_count(line),
    ensures
        byte_offset_of(line, c) <= line.len(),
        well_formed(
            line.take(byte_offset_of(line, c) as int) + t + line.skip(
                byte_offset_of(line, c) as int,
            ),
        ),
        char_count(
            line.take(byte_offset_of(line, c) as int) + t + line.skip(
                byte_offset_of(line, c) as int,
            ),
        ) == char_count(line) + char_count(t),
{
    let o = byte_offset_of(line, c) as int;
    lemma_wf_take(line, c);
    lemma_wf_skip(line, c);
    let a = line.take(o);
    let b = line.skip(o);
    lemma_wf_concat(t, b);
    lemma_cc_concat(t, b);
    lemma_wf_concat(a, t + b);
    lemma_cc_concat(a, t + b);
    assert(a + t + b =~= a + (t + b));
}

/// Cutting one character out of a row at its boundaries leaves complete
/// characters, one fewer than before.
proof fn lemma_delete_edit(line: Seq<u8>, d: nat)
    requires
        well_formed(line),
        d < char_count(line),
    ensures
        byte_offset_of(line, d) <= byte_offset_of(line, (d + 1) as nat),
        byte_offset_of(line, (d + 1) as nat) <= line.len(),
        well_formed(
            line.take(byte_offset_of(line, d) as int) + line.skip(
                byte_offset_of(line, (d + 1) as nat) as int,
            ),
        ),
        char_count(
            line.take(byte_offset_of(line, d) as int) + line.skip(
                byte_offset_of(line, (d + 1) as nat) as int,
            ),
        ) == char_count(line) - 1,
{
    lemma_offset_succ(line, d);
    lemma_wf_take(line, d);
    lemma_wf_skip(line, (d + 1) as nat);
    let o1 = byte_offset_of(line, d) as int;
    let o2 = byte_offset_of(line, (d + 1) as nat) as int;
    lemma_wf_concat(line.take(o1), line.skip(o2));
    lemma_cc_concat(line.take(o1), line.skip(o2));
}

/// Law: every transition keeps the state invariant — the cursor stays on a
/// row, the column stays on the row's characters, and every row stays made of
/// complete characters.
pub proof fn lemma_step_event_preserves_inv(s: TabView, ev: InputEvent)
    requires
        inv_state(s),
    ensures
        inv_state(step_event(s, ev)),
{
    let s2 = step_event(s, ev);
    match ev {
        InputEvent::InsertText(t) => {
            if insert_fits(s, t@) {
                lemma_insert_edit(current_row(s), t@, s.col);
                assert forall|i: int| 0 <= i < s2.lines.len() implies well_formed(
                    #[trigger] s2.lines[i],
                ) by {
                    if i != s.row {
                        assert(s2.lines[i] == s.lines[i]);
                    }
                }
            }
        },
        InputEvent::DeleteBackward => {
            if s.col > 0 {
                lemma_delete_edit(current_row(s), (s.col - 1) as nat);
                assert forall|i: int| 0 <= i < s2.lines.len() implies well_formed(
                    #[trigger] s2.lines[i],
                ) by {
                    if i != s.row {
                        assert(s2.lines[i] == s.lines[i]);
                    }
                }
            }
        },
        InputEvent::DeleteForward => {
            if s.col < char_count(current_row(s)) {
                lemma_delete_edit(current_row(s), s.col);
                assert forall|i: int| 0 <= i < s2.lines.len() implies well_formed(
                    #[trigger] s2.lines[i],
                ) by {
                    if i != s.row {
                        assert(s2.lines[i] == s.lines[i]);
                    }
                }
            }
        },
        _ => {},
    }
}

/// The state after applying a whole queue of events, first to last.
pub open spec fn steps_events(s: TabView, evs: Seq<InputEvent>) -> TabView
    decreases evs.len(),
{
    if evs.len() == 0 {
        s
    } else {
        steps_events(step_event(s, evs[0]), evs.skip(1))
    }
}

/// Whether draining the queue from state `s` drops any event on the way.
pub open spec fn any_dropped(s: TabView, evs: Seq<InputEvent>) -> bool
    decreases evs.len(),
{
    evs.len() > 0 && (event_dropped(s, evs[0]) || any_dropped(
        step_event(s, evs[0]),
        evs.skip(1),
    ))
}

/// Law: a whole queue of events, applied in arrival order, keeps the state
/// invariant — no sequence of events can reach an ill-formed state.
pub proof fn lemma_steps_events_preserve_inv(s: TabView, evs: Seq<InputEvent>)
    requires
        inv_state(s),
    ensures
        inv_state(steps_events(s, evs)),
    decreases evs.len(),
{
    if evs.len() > 0 {
        lemma_step_event_preserves_inv(s, evs[0]);
        lemma_steps_events_preserve_inv(step_event(s, evs[0]), evs.skip(1));
    }
}

/// Law: jumping to the row start twice in a row is the same as jumping once.
pub proof fn lemma_move_home_idempotent(s: TabView)
    ensures
        step_move_home(step_move_home(s)) == step_move_home(s),
{
    assert(step_move_home(step_move_home(s)) =~= step_move_home(s));
}

/// The state after `n` backward deletions in a row.
pub open spec fn iter_delete_backward(s: TabView, n: nat) -> TabView
    decreases n,
{
    if n == 0 {
        s
    } else {
        iter_delete_backward(step_delete_backward(s), (n - 1) as nat)
    }
}

/// Deleting backward right after an insertion takes off exactly the last
/// inserted character.
proof fn lemma_del_back_of_insert(s: TabView, t: Seq<u8>)
    requires
        inv_state(s),
        well_formed(t),
        char_count(t) >= 1,
    ensures
        step_delete_backward(step_insert(s, t)) == step_insert(
            s,
            t.take(byte_offset_of(t, (char_count(t) - 1) as nat) as int),
        ),
{
    let line = current_row(s);
    let c = s.col;
    let o = byte_offset_of(line, c) as int;
    lemma_wf_take(line, c);
    lemma_wf_skip(line, c);
    let a = line.take(o);
    let b = line.skip(o);
    let n = char_count(t);
    let ot = byte_offset_of(t, (n - 1) as nat) as int;
    lemma_offset_le_len(t, (n - 1) as nat);
    lemma_wf_take(t, (n - 1) as nat);
    let t1 = t.take(ot);
    let s1 = step_insert(s, t);
    let line1 = a + t + b;
    assert(current_row(s1) == line1);
    let at = a + t;
    lemma_wf_concat(a, t);
    lemma_cc_concat(a, t);
    assert(line1 =~= at + b);
    lemma_off_concat_hi(at, b, (c + n) as nat);
    assert(byte_offset_of(b, 0) == 0);
    assert(byte_offset_of(line1, (c + n) as nat) == o + t.len());
    lemma_off_concat_lo(at, b, (c + n - 1) as nat);
    lemma_off_concat_hi(a, t, (c + n - 1) as nat);
    assert(byte_offset_of(line1, (c + n - 1) as nat) == o + ot);
    let s2 = step_delete_backward(s1);
    assert(line1.take(o + ot) =~= a + t1);
    assert(line1.skip(o + t.len()) =~= b);
    assert((a + t1) + b =~= a + t1 + b);
    assert(s2.lines =~= step_insert(s, t1).lines);
    assert(s2 =~= step_insert(s, t1));
}

/// Law: inserting text and then deleting backward once per inserted
/// character restores the row content and the column the state had before.
pub proof fn lemma_insert_then_delete_backward(s: TabView, t: Seq<u8>)
    requires
        inv_state(s),
        well_formed(t),
    ensures
        iter_delete_backward(step_insert(s, t), char_count(t)) == s,
    decreases char_count(t),
{
    let n = char_count(t);
    if n == 0 {
        assert(t =~= Seq::<u8>::empty());
        let line = current_row(s);
        let o = byte_offset_of(line, s.col) as int;
        lemma_offset_le_len(line, s.col);
        assert(line.take(o) + t + line.skip(o) =~= line);
        assert(s.lines.update(s.row as int, line) =~= s.lines);
        assert(step_insert(s, t) =~= s);
    } else {
        lemma_del_back_of_insert(s, t);
        let ot = byte_offset_of(t, (n - 1) as nat) as int;
        lemma_wf_take(t, (n - 1) as nat);
        let t1 = t.take(ot);
        lemma_insert_then_delete_backward(s, t1);
        assert(iter_delete_backward(step_insert(s, t), n) == iter_delete_backward(
            step_delete_backward(step_insert(s, t)),
            (n - 1) as nat,
        ));
    }
}

/// Rows with nothing in them become the single empty row every buffer starts
/// from; anything else is kept as it is.
pub open spec fn normalized_rows(rows: Seq<Seq<u8>>) -> Seq<Seq<u8>> {
    if rows.len() == 0 {
        seq![Seq::<u8>::empty()]
    } else {
        rows
    }
}

/// A row index, pulled back onto the buffer if it lies past the last row.
pub open spec fn clamp_row(r: nat, rows: Seq<Seq<u8>>) -> nat
    recommends
        rows.len() >= 1,
{
    if r < rows.len() {
        r
    } else {
        (rows.len() - 1) as nat
    }
}

/// One open document: its rows, its cursor, and the events not yet applied.
pub struct Tab {
    /// The rows of the document.
    pub lines: Vec<Vec<u8>>,
    /// The cursor within the document.
    pub cursor: Cursor,
    pending: Vec<InputEvent>,
}

impl View for Tab {
    type V = TabView;

    closed spec fn view(&self) -> TabView {
        TabView {
            lines: rows_view(self.lines@),
            row: self.cursor.y as nat,
            col: self.cursor.x as nat,
        }
    }
}

/// Inserts `text` at the cursor of the addressed row: the bytes go in at the
/// translated byte offset and the column advances by the number of characters
/// inserted. A column past the row's end makes the first translation fail;
/// the column is then clamped onto the row and the translation retried, which
/// succeeds. Text that would grow the row beyond what a byte index can
/// address is refused whole, as a dropped event.
pub fn type_text(
    lines: &mut Vec<Vec<u8>>,
    cursor_x: &mut usize,
    cursor_y: &usize,
    text: Vec<u8>,
) -> (r: Result<(), EditError>)
    requires
        *cursor_y < old(lines)@.len(),
        well_formed(old(lines)@[*cursor_y as int]@),
        well_formed(text@),
    ensures
        ({
            let s0 = TabView {
                lines: rows_view(old(lines)@),
                row: *cursor_y as nat,
                col: clamp_col(*old(cursor_x) as nat, old(lines)@[*cursor_y as int]@),
            };
            if insert_fits(s0, text@) {
                &&& r is Ok
                &&& rows_view(final(lines)@) == step_insert(s0, text@).lines
                &&& *final(cursor_x) == step_insert(s0, text@).col
            } else {
                &&& r == Err::<(), EditError>(EditError::EngineFault)
                &&& final(lines)@ == old(lines)@
                &&& *final(cursor_x) == *old(cursor_x)
            }
        }),
{
    let y = *cursor_y;
    let ghost line0 = lines@[y as int]@;
    if text.len() > usize::MAX - lines[y].len() {
        return Err(EditError::EngineFault);
    }
    let (col, off) = match char_idx_to_byte(&lines[y], *cursor_x) {
        Ok(o) => (*cursor_x, o),
        Err(_) => {
            // the column lay past the row's end: clamp it and retry once
            let cc = count_chars(&lines[y]);
            match char_idx_to_byte(&lines[y], cc) {
                Ok(o) => (cc, o),
                Err(_) => {
                    // the clamped retry addresses the append position and cannot fail
                    proof {
                        assert(false);
                    }
                    (0, 0)
                },
            }
        },
    };
    proof {
        assert(col as nat == clamp_col(*old(cursor_x) as nat, line0));
        lemma_offset_le_len(line0, col as nat);
        lemma_char_count_le_len(text@);
        assert(char_count(line0) <= line0.len()) by {
            lemma_char_count_le_len(line0);
        }
    }
    let new_row = replace_range(&lines[y], off, off, &text);
    lines[y] = new_row;
    let added = count_chars(&text);
    *cursor_x = col + added;
    proof {
        let s0 = TabView {
            lines: rows_view(old(lines)@),
            row: y as nat,
            col: clamp_col(*old(cursor_x) as nat, line0),
        };
        assert(rows_view(lines@) =~= step_insert(s0, text@).lines);
    }
    Ok(())
}

impl Tab {
    /// The events waiting to be applied, in arrival order.
    pub closed spec fn pending_events(&self) -> Seq<InputEvent> {
        self.pending@
    }

    /// Builds a tab from rows and a cursor. Rows that are not complete
    /// characters are refused whole; no rows at all become one empty row; the
    /// cursor is clamped onto the text. The event queue starts empty.
    pub fn from_lines(lines: Vec<Vec<u8>>, cursor: Cursor) -> (r: Result<Tab, EditError>)
        ensures
            r is Ok <==> (forall|i: int|
                0 <= i < lines@.len() ==> well_formed(#[trigger] lines@[i]@)),
            r is Err ==> r == Err::<Tab, EditError>(EditError::LoadFailure),
            r matches Ok(t) ==> {
                &&& inv_state(t@)
                &&& t@.lines == normalized_rows(rows_view(lines@))
                &&& t@.row == clamp_row(cursor.y as nat, t@.lines)
                &&& t@.col == clamp_col(cursor.x as nat, t@.lines[t@.row as int])
                &&& t.pending_events() == Seq::<InputEvent>::empty()
            },
    {
        let n = lines.len();
        let mut i: usize = 0;
        while i < n
            invariant
                i <= n,
                n == lines@.len(),
                forall|k: int| 0 <= k < i ==> well_formed(#[trigger] lines@[k]@),
            decreases n - i,
        {
            if !is_well_formed(&lines[i]) {
                return Err(EditError::LoadFailure);
            }
            i = i + 1;
        }
        let ghost rows0 = lines@;
        let mut lines = lines;
        let mut cursor = cursor;
        if lines.len() == 0 {
            lines.push(Vec::new());
            proof {
                assert(rows_view(lines@) =~= seq![Seq::<u8>::empty()]);
            }
        }
        proof {
            assert(rows_view(lines@) =~= normalized_rows(rows_view(rows0)));
        }
        let rows = lines.len();
        if cursor.y >= rows {
            cursor.y = rows - 1;
        }
        let cc = count_chars(&lines[cursor.y]);
        if cursor.x > cc {
            cursor.x = cc;
        }
        Ok(Tab { lines, cursor, pending: Vec::new() })
    }

    /// Builds a tab over the rows a file supplies, with the given cursor.
    pub fn new<F: ReadFile>(file: F, cursor: Cursor) -> (r: Result<Tab, EditError>)
        ensures
            r is Ok <==> (forall|i: int|
                0 <= i < file.rows().len() ==> well_formed(#[trigger] file.rows()[i])),
            r is Err ==> r == Err::<Tab, EditError>(EditError::LoadFailure),
            r matches Ok(t) ==> {
                &&& inv_state(t@)
                &&& t@.lines == normalized_rows(file.rows())
                &&& t@.row == clamp_row(cursor.y as nat, t@.lines)
                &&& t@.col == clamp_col(cursor.x as nat, t@.lines[t@.row as int])
                &&& t.pending_events() == Seq::<InputEvent>::empty()
            },
    {
        let lines = file.all_lines();
        proof {
            assert(forall|i: int| 0 <= i < lines@.len() ==> #[trigger] lines@[i]@ == file.rows()[
                i
            ]);
        }
        Tab::from_lines(lines, cursor)
    }

    /// Hands the tab one more event, to be applied at the next tick.
    pub fn push_event(&mut self, ev: InputEvent)
        ensures
            final(self)@ == old(self)@,
            final(self).pending_events() == old(self).pending_events().push(ev),
    {
        self.pending.push(ev);
    }

    /// Applies one event as an atomic transition: the state becomes exactly
    /// what [`step_event`] reads off the old state, and the result reports
    /// whether the event had to be dropped.
    pub fn apply_event(&mut self, ev: InputEvent) -> (r: Result<(), EditError>)
        requires
            inv_state(old(self)@),
        ensures
            inv_state(final(self)@),
            final(self)@ == step_event(old(self)@, ev),
            final(self).pending_events() == old(self).pending_events(),
            r is Ok <==> !event_dropped(old(self)@, ev),
            r is Err ==> r == Err::<(), EditError>(EditError::EngineFault),
    {
        proof {
            lemma_step_event_preserves_inv(old(self)@, ev);
        }
        let ghost s0 = self@;
        match ev {
            InputEvent::InsertText(text) => {
                if !is_well_formed(&text) {
                    return Err(EditError::EngineFault);
                }
                let r = type_text(&mut self.lines, &mut self.cursor.x, &self.cursor.y, text);
                proof {
                    assert(s0.col == clamp_col(s0.col, current_row(s0)));
                    if r is Ok {
                        assert(self@ =~= step_event(s0, ev));
                    } else {
                        assert(self@ =~= s0);
                    }
                }
                r
            },
            InputEvent::DeleteBackward => {
                if self.cursor.x == 0 {
                    return Ok(());
                }
                let y = self.cursor.y;
                proof {
                    lemma_delete_edit(current_row(s0), (s0.col - 1) as nat);
                }
                let o1 = offset_on_row(&self.lines[y], self.cursor.x - 1);
                let o2 = offset_on_row(&self.lines[y], self.cursor.x);
                let gap: Vec<u8> = Vec::new();
                let new_row = replace_range(&self.lines[y], o1, o2, &gap);
                self.lines[y] = new_row;
                self.cursor.x = self.cursor.x - 1;
                proof {
                    assert(gap@ + current_row(s0).skip(o2 as int) =~= current_row(s0).skip(
                        o2 as int,
                    ));
                    assert(rows_view(self.lines@) =~= step_delete_backward(s0).lines);
                    assert(self@ =~= step_event(s0, ev));
                }
                Ok(())
            },
            InputEvent::DeleteForward => {
                let y = self.cursor.y;
                let cc = count_chars(&self.lines[y]);
                if self.cursor.x >= cc {
                    return Ok(());
                }
                proof {
                    lemma_delete_edit(current_row(s0), s0.col);
                }
                let o1 = offset_on_row(&self.lines[y], self.cursor.x);
                let o2 = offset_on_row(&self.lines[y], self.cursor.x + 1);
                let gap: Vec<u8> = Vec::new();
                let new_row = replace_range(&self.lines[y], o1, o2, &gap);
                self.lines[y] = new_row;
                proof {
                    assert(gap@ + current_row(s0).skip(o2 as int) =~= current_row(s0).skip(
                        o2 as int,
                    ));
                    assert(rows_view(self.lines@) =~= step_delete_forward(s0).lines);
                    assert(self@ =~= step_event(s0, ev));
                }
                Ok(())
            },
            InputEvent::MoveLeft => {
                if self.cursor.x > 0 {
                    self.cursor.x = self.cursor.x - 1;
                }
                proof {
                    assert(self@ =~= step_event(s0, ev));
                }
                Ok(())
            },
            InputEvent::MoveRight => {
                let cc = count_chars(&self.lines[self.cursor.y]);
                if self.cursor.x < cc {
                    self.cursor.x = self.cursor.x + 1;
                }
                proof {
                    assert(self@ =~= step_event(s0, ev));
                }
                Ok(())
            },
            InputEvent::MoveUp => {
                if self.cursor.y > 0 {
                    self.cursor.y = self.cursor.y - 1;
                    let cc = count_chars(&self.lines[self.cursor.y]);
                    if self.cursor.x > cc {
                        self.cursor.x = cc;
                    }
                }
                proof {
                    assert(self@ =~= step_event(s0, ev));
                }
                Ok(())
            },
            InputEvent::MoveDown => {
                if self.cursor.y < self.lines.len() - 1 {
                    self.cursor.y = self.cursor.y + 1;
                    let cc = count_chars(&self.lines[self.cursor.y]);
                    if self.cursor.x > cc {
                        self.cursor.x = cc;
                    }
                }
                proof {
                    assert(self@ =~= step_event(s0, ev));
                }
                Ok(())
            },
            InputEvent::MoveHome => {
                self.cursor.x = 0;
                proof {
                    assert(self@ =~= step_event(s0, ev));
                }
                Ok(())
            },
            InputEvent::MoveEnd => {
                let cc = count_chars(&self.lines[self.cursor.y]);
                self.cursor.x = cc;
                proof {
                    assert(self@ =~= step_event(s0, ev));
                }
                Ok(())
            },
            InputEvent::Unknown => Ok(()),
        }
    }

    /// Applies every pending event, in arrival order, and leaves the queue
    /// empty. The state advances through every event that can be applied;
    /// dropped events are reported afterwards as one soft `EngineFault`.
    pub fn drain_pending(&mut self) -> (r: Result<(), EditError>)
        requires
            inv_state(old(self)@),
        ensures
            inv_state(final(self)@),
            final(self)@ == steps_events(old(self)@, old(self).pending_events()),
            final(self).pending_events() == Seq::<InputEvent>::empty(),
            r is Ok <==> !any_dropped(old(self)@, old(self).pending_events()),
            r is Err ==> r == Err::<(), EditError>(EditError::EngineFault),
    {
        let ghost s0 = self@;
        let ghost evs0 = self.pending@;
        let mut faulted = false;
        while self.pending.len() > 0
            invariant
                inv_state(self@),
                steps_events(s0, evs0) == steps_events(self@, self.pending@),
                any_dropped(s0, evs0) == (faulted || any_dropped(self@, self.pending@)),
            decreases self.pending@.len(),
        {
            let ghost sv = self@;
            let ghost p0 = self.pending@;
            let ev = self.pending.remove(0);
            proof {
                assert(p0.remove(0) =~= p0.skip(1));
            }
            let r = self.apply_event(ev);
            if r.is_err() {
                faulted = true;
            }
        }
        proof {
            assert(self.pending@ =~= Seq::<InputEvent>::empty());
        }
        if faulted {
            Err(EditError::EngineFault)
        } else {
            Ok(())
        }
    }
}

impl Lifecycle for Tab {
    open spec fn inv(&self) -> bool {
        inv_state(self@)
    }

    /// One tick: drain and apply every pending event, in arrival order. The
    /// state becomes exactly the fold of [`step_event`] over the queue, the
    /// queue ends empty, and dropped events are reported as one soft fault.
    fn tick(&mut self) -> (r: Result<(), EditError>)
        ensures
            final(self)@ == steps_events(old(self)@, old(self).pending_events()),
            final(self).pending_events() == Seq::<InputEvent>::empty(),
            r is Ok <==> !any_dropped(old(self)@, old(self).pending_events()),
            r is Err ==> r == Err::<(), EditError>(EditError::EngineFault),
    {
        self.drain_pending()
    }
}

/// Byte offset of the `idx`-th character of a row, for an index known to be
/// on the row (at most its character count).
fn offset_on_row(row: &Vec<u8>, idx: usize) -> (o: usize)
    requires
        well_formed(row@),
        idx <= char_count(row@),
    ensures
        o == byte_offset_of(row@, idx as nat),
{
    proof {
        assert(row.len() == row@.len());
        lemma_offset_le_len(row@, idx as nat);
    }
    match char_idx_to_byte(row, idx) {
        Ok(o) => o,
        Err(_) => {
            // an index on the row always translates
            proof {
                assert(false);
            }
            0
        },
    }
}

} // verus!
