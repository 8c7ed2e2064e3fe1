//! Properties of the editing model that hold across operations.

use vstd::prelude::*;
use crate::layout::LayoutView;
use crate::layout::{layout_position, target_byte};
use crate::text_input::{EditKey, InputState, KeyAction, KeyPresses, lemma_constrain_bound};
use crate::utf8::{
    byte_len, char_width, floor_boundary, is_control_char, lemma_floor_boundary,
    lemma_floor_index_of_offset, lemma_insert, lemma_offset_end, lemma_offset_mono,
    lemma_offset_step, lemma_on_boundary, lemma_remove, lemma_width_bounds,
    floor_index, lemma_floor_index_props, lemma_floor_index_unique, offset, on_boundary,
};

verus! {

/// Law: backspace undoes an insertion at the cursor: the text and the cursor
/// are as before.
pub proof fn law_backspace_undoes_insert(m: InputState, c: char)
    requires
        m.wf(),
        m.has_room(),
    ensures
        m.inserted(c).backspaced() == m,
{
    let s = m.text;
    let k = m.cursor_char();
    lemma_on_boundary(s, m.cursor as int);
    lemma_insert(s, k, c);
    lemma_width_bounds(c);
    let t = s.insert(k, c);
    let n = m.inserted(c);
    assert(n.cursor_char() == k + 1);
    assert(t.remove(k) =~= s);
}

/// Law: typing a character that is accepted, then Backspace, restores the
/// text and the cursor.
pub proof fn law_backspace_undoes_typing(m: InputState, c: char)
    requires
        m.wf(),
        m.has_room(),
        !is_control_char(c),
        m.can_insert(c),
    ensures
        m.typed(c).backspaced() == m,
{
    law_backspace_undoes_insert(m, c);
}

/// Law: Right then Left returns the cursor to where it was, when there is a
/// character after it; Left then Right likewise when there is one before it.
pub proof fn law_left_right_inverse(m: InputState)
    requires
        m.wf(),
    ensures
        m.cursor < byte_len(m.text) ==> m.moved_right().moved_left() == m,
        m.cursor > 0 ==> m.moved_left().moved_right() == m,
{
    let s = m.text;
    let k = m.cursor_char();
    lemma_on_boundary(s, m.cursor as int);
    lemma_offset_end(s);
    if m.cursor < byte_len(s) {
        lemma_floor_index_of_offset(s, k + 1);
        lemma_offset_step(s, k);
        lemma_width_bounds(s[k]);
        lemma_offset_mono(s, k + 1, s.len() as int);
    }
    if m.cursor > 0 {
        lemma_floor_index_of_offset(s, k - 1);
        lemma_offset_step(s, k - 1);
        lemma_width_bounds(s[k - 1]);
    }
}

/// Law: every editing action keeps the state well formed (the cursor within
/// the text, at a character boundary) and adds at most 4 bytes.
pub proof fn law_edits_keep_cursor_valid(m: InputState, c: char)
    requires
        m.wf(),
        m.has_room(),
    ensures
        m.typed(c).wf(),
        m.entered().wf(),
        m.deleted().wf(),
        m.backspaced().wf(),
        m.moved_left().wf(),
        m.moved_right().wf(),
        byte_len(m.typed(c).text) <= byte_len(m.text) + 4,
        byte_len(m.entered().text) <= byte_len(m.text) + 4,
        byte_len(m.deleted().text) <= byte_len(m.text),
        byte_len(m.backspaced().text) <= byte_len(m.text),
{
    let s = m.text;
    let k = m.cursor_char();
    lemma_on_boundary(s, m.cursor as int);
    lemma_offset_end(s);
    lemma_insert(s, k, c);
    lemma_width_bounds(c);
    lemma_insert(s, k, '\n');
    if m.cursor < byte_len(s) {
        lemma_remove(s, k);
        lemma_floor_index_of_offset(s, k + 1);
        lemma_offset_mono(s, k + 1, s.len() as int);
    }
    if m.cursor > 0 {
        lemma_remove(s, k - 1);
        lemma_floor_index_of_offset(s, k - 1);
        lemma_offset_mono(s, k - 1, s.len() as int);
        assert(byte_len(s.remove(k - 1)) + char_width(s[k - 1]) == byte_len(s));
        lemma_offset_mono(s, k - 1, k);
    }
}

/// Law: validating the cursor yields a boundary within the text, never moves
/// the cursor forward, leaves a valid cursor where it is, and is idempotent.
pub proof fn law_validation(m: InputState)
    requires
        byte_len(m.text) < usize::MAX,
    ensures
        m.validated().wf(),
        m.validated().cursor <= m.cursor,
        m.validated().validated() == m.validated(),
        m.at_boundary() ==> m.validated() == m,
{
    lemma_floor_boundary(m.text, m.cursor as int);
    lemma_floor_boundary(m.text, floor_boundary(m.text, m.cursor as int) as int);
}

/// Every character of `t` passes `p`.
pub open spec fn all_pass(t: Seq<char>, p: spec_fn(char) -> bool) -> bool {
    forall|i: int| 0 <= i < t.len() ==> p(#[trigger] t[i])
}

/// Filtering keeps only passing characters.
pub proof fn lemma_filter_all_pass(s: Seq<char>, p: spec_fn(char) -> bool)
    ensures
        all_pass(s.filter(p), p),
{
    assert forall|i: int| 0 <= i < s.filter(p).len() implies p(#[trigger] s.filter(p)[i]) by {
        s.lemma_filter_pred(p, i);
    }
}

/// Filtering a sequence whose characters all pass changes nothing.
pub proof fn lemma_filter_identity(s: Seq<char>, p: spec_fn(char) -> bool)
    requires
        all_pass(s, p),
    ensures
        s.filter(p) == s,
    decreases s.len(),
{
    reveal(Seq::filter);
    if s.len() > 0 {
        let t = s.drop_last();
        assert(all_pass(t, p)) by {
            assert forall|i: int| 0 <= i < t.len() implies p(#[trigger] t[i]) by {
                assert(t[i] == s[i]);
            }
        }
        lemma_filter_identity(t, p);
        assert(p(s[s.len() - 1]));
        assert(t.push(s.last()) =~= s);
    }
}

/// The text obeys the input constraints: every character is kept by them
/// and the character limit, if any, is respected.
pub open spec fn obeys_constraints(m: InputState, t: Seq<char>) -> bool {
    &&& all_pass(t, m.keep_pred())
    &&& (m.max_chars matches Some(k) ==> t.len() <= k)
}

/// Law: the constrained text keeps only characters that the constraints
/// accept, and has at most `max_chars` characters.
pub proof fn law_constrain_obeys(m: InputState, s: Seq<char>)
    ensures
        all_pass(m.constrain(s), m.keep_pred()),
        m.max_chars matches Some(k) ==> m.constrain(s).len() <= k,
{
    let p = m.keep_pred();
    let f = s.filter(p);
    lemma_filter_all_pass(s, p);
    match m.max_chars {
        None => {},
        Some(k) => {
            if f.len() > k {
                assert forall|i: int| 0 <= i < f.take(k as int).len() implies p(
                    #[trigger] f.take(k as int)[i],
                ) by {
                    assert(f.take(k as int)[i] == f[i]);
                }
            }
        },
    }
}

/// Law: applying the constraints twice is the same as applying them once.
pub proof fn law_constrain_idempotent(m: InputState, s: Seq<char>)
    ensures
        m.constrain(m.constrain(s)) == m.constrain(s),
{
    let c = m.constrain(s);
    law_constrain_obeys(m, s);
    lemma_filter_identity(c, m.keep_pred());
}

/// Law: text that obeys the constraints keeps obeying them when characters
/// are typed and when Enter is pressed.
pub proof fn law_typing_keeps_constraints(m: InputState, c: char)
    requires
        m.wf(),
        m.has_room(),
        obeys_constraints(m, m.text),
    ensures
        obeys_constraints(m.typed(c), m.typed(c).text),
        obeys_constraints(m.entered(), m.entered().text),
{
    let k = m.cursor_char();
    lemma_on_boundary(m.text, m.cursor as int);
    let p = m.keep_pred();
    assert forall|x: char| #![trigger m.text.insert(k, x)]
        m.keeps(x) implies all_pass(m.text.insert(k, x), p) by {
        let t = m.text.insert(k, x);
        assert forall|i: int| 0 <= i < t.len() implies p(#[trigger] t[i]) by {
            if i < k {
                assert(t[i] == m.text[i]);
            } else if i > k {
                assert(t[i] == m.text[i - 1]);
            }
        }
    }
    if !is_control_char(c) && m.can_insert(c) {
        assert(m.keeps(c));
        assert(all_pass(m.text.insert(k, c), p));
    }
    if m.multiline && m.can_insert('\n') {
        assert(m.keeps('\n'));
        assert(all_pass(m.text.insert(k, '\n'), p));
    }
}

/// Law: setting a text that already obeys the constraints stores it
/// unchanged, so reading the text back gives what was written.
pub proof fn law_set_text_round_trip(m: InputState, s: Seq<char>)
    requires
        obeys_constraints(m, s),
    ensures
        m.constrain(s) == s,
        m.with_text(m.constrain(s)).text == s,
{
    lemma_filter_identity(s, m.keep_pred());
}

/// Law: setting the text to what a previous `set_text` stored changes
/// nothing: neither the text nor the cursor moves.
pub proof fn law_set_text_again_changes_nothing(m: InputState, s: Seq<char>)
    requires
        m.wf(),
        byte_len(s) < usize::MAX,
    ensures
        ({
            let n = m.with_text(m.constrain(s));
            n.with_text(n.constrain(n.text)) == n
        }),
{
    let c = m.constrain(s);
    lemma_constrain_bound(m, s);
    law_constrain_idempotent(m, s);
    let n = m.with_text(c);
    assert(n.keep_pred() == m.keep_pred());
    assert(n.constrain(c) == m.constrain(c));
    law_validation(InputState { text: c, ..m });
}

/// One step of a frame's update, as the library performs it.
pub enum FrameEvent {
    /// The start of the update (`begin_update`).
    Begin,
    /// A click sets the focus (`set_active`).
    Activate(bool),
    /// A click places the cursor at a display position of a layout (`place_cursor`).
    Click(LayoutView, usize, usize),
    /// A typed character (`type_char`).
    Type(char),
    /// Enter (`press_enter`).
    Enter,
    /// The key presses of the frame, with the layout they navigate (`handle_key_presses`).
    Keys(KeyPresses, LayoutView),
    /// The remembered column is forgotten (`clear_preferred_column`).
    ForgetColumn,
    /// The held key repeats (`repeat_key`).
    Repeat(EditKey),
    /// The held key is released (`release_key`).
    Release,
}

impl InputState {
    /// The state after `e`.
    pub open spec fn after(self, e: FrameEvent) -> InputState {
        match e {
            FrameEvent::Begin => if self.enabled {
                self
            } else {
                InputState { active: false, ..self }
            },
            FrameEvent::Activate(a) => InputState { active: a, ..self },
            FrameEvent::Click(lv, line, col) => self.placed_at(lv, line, col),
            FrameEvent::Type(c) => self.typed(c),
            FrameEvent::Enter => self.entered(),
            FrameEvent::Keys(keys, lv) => self.pressed(keys, lv).0,
            FrameEvent::ForgetColumn => InputState { preferred_col: None, ..self },
            FrameEvent::Repeat(key) => self.repeated(key),
            FrameEvent::Release => InputState { last_key: None, ..self },
        }
    }
}

/// The state after the events `es`, in order.
pub open spec fn run_events(m: InputState, es: Seq<FrameEvent>) -> InputState
    decreases es.len(),
{
    if es.len() == 0 {
        m
    } else {
        run_events(m, es.drop_last()).after(es.last())
    }
}

/// Every character of `t` is in the whitelist `a` or is a newline.
pub open spec fn within_whitelist(a: Seq<char>, t: Seq<char>) -> bool {
    forall|i: int| 0 <= i < t.len() ==> a.contains(#[trigger] t[i]) || t[i] == '\n'
}

proof fn lemma_remove_keeps(t: Seq<char>, k: int, a: Seq<char>)
    requires
        0 <= k < t.len(),
        within_whitelist(a, t),
    ensures
        within_whitelist(a, t.remove(k)),
        t.remove(k).len() == t.len() - 1,
{
    let r = t.remove(k);
    assert forall|i: int| 0 <= i < r.len() implies a.contains(#[trigger] r[i]) || r[i] == '\n' by {
        if i < k {
            assert(r[i] == t[i]);
        } else {
            assert(r[i] == t[i + 1]);
        }
    }
}

proof fn lemma_insert_keeps(t: Seq<char>, k: int, c: char, a: Seq<char>)
    requires
        0 <= k <= t.len(),
        within_whitelist(a, t),
        a.contains(c) || c == '\n',
    ensures
        within_whitelist(a, t.insert(k, c)),
{
    let r = t.insert(k, c);
    assert forall|i: int| 0 <= i < r.len() implies a.contains(#[trigger] r[i]) || r[i] == '\n' by {
        if i < k {
            assert(r[i] == t[i]);
        } else if i > k {
            assert(r[i] == t[i - 1]);
        }
    }
}

/// `n`'s text keeps the character limit and the whitelist that `m`'s text obeys.
pub open spec fn text_keeps(m: InputState, n: InputState) -> bool {
    &&& (m.max_chars matches Some(k) ==> (m.text.len() <= k ==> n.text.len() <= k))
    &&& (m.allowed_chars matches Some(a) ==> (within_whitelist(a, m.text) ==> within_whitelist(
        a,
        n.text,
    )))
}

/// What the text edits keep: the character limit and the whitelist.
proof fn lemma_text_edits_keep(m: InputState, c: char)
    requires
        m.wf(),
        m.has_room(),
    ensures
        text_keeps(m, m.typed(c)),
        text_keeps(m, m.entered()),
        text_keeps(m, m.deleted()),
        text_keeps(m, m.backspaced()),
{
    let s = m.text;
    let k = m.cursor_char();
    lemma_on_boundary(s, m.cursor as int);
    lemma_offset_end(s);
    if let Some(a) = m.allowed_chars {
        if within_whitelist(a, s) {
            if !is_control_char(c) && m.can_insert(c) {
                lemma_insert_keeps(s, k, c, a);
            }
            if m.multiline {
                lemma_insert_keeps(s, k, '\n', a);
            }
            if m.cursor < byte_len(s) {
                lemma_remove_keeps(s, k, a);
            }
            if m.cursor > 0 {
                lemma_remove_keeps(s, k - 1, a);
            }
        }
    }
    if m.cursor < byte_len(s) {
        assert(s.remove(k).len() == s.len() - 1);
    }
    if m.cursor > 0 {
        assert(s.remove(k - 1).len() == s.len() - 1);
    }
}

/// A click keeps the state well formed.
proof fn lemma_click_step(m: InputState, lv: LayoutView, line: usize, col: usize)
    requires
        m.wf(),
    ensures
        m.placed_at(lv, line, col).wf(),
{
    lemma_floor_boundary(m.text, target_byte(lv, (line, col), byte_len(m.text)) as int);
}

/// Up/Down keeps the state well formed and the text as it is.
proof fn lemma_vertical_step(m: InputState, lv: LayoutView, up: bool, down: bool)
    requires
        m.wf(),
    ensures
        m.moved_vertically(lv, up, down).wf(),
        m.moved_vertically(lv, up, down).text == m.text,
{
    let pos = layout_position(lv, m.cursor as int);
    let pref: nat = match m.preferred_col {
        Some(p) => p,
        None => pos.1 as nat,
    };
    let line = pos.0 as int;
    let new_line: int = if up && line > 0 {
        line - 1
    } else if down && line + 1 < lv.lines.len() {
        line + 1
    } else {
        line
    };
    let len = lv.lines[new_line].len();
    let new_col: nat = if pref < len { pref } else { len };
    lemma_click_step(m, lv, new_line as usize, new_col as usize);
}

/// The facts that one event keeps.
pub open spec fn step_keeps(m: InputState, n: InputState) -> bool {
    &&& n.wf()
    &&& byte_len(n.text) <= byte_len(m.text) + 4
    &&& n.max_chars == m.max_chars
    &&& n.allowed_chars == m.allowed_chars
    &&& text_keeps(m, n)
}

/// What one event keeps: well-formedness, the settings, at most 4 more
/// bytes, the character limit and the whitelist.
proof fn lemma_event_step(m: InputState, e: FrameEvent)
    requires
        m.wf(),
        m.has_room(),
    ensures
        step_keeps(m, m.after(e)),
{
    match e {
        FrameEvent::Click(lv, line, col) => {
            lemma_click_step(m, lv, line, col);
        },
        FrameEvent::Type(c) => {
            law_edits_keep_cursor_valid(m, c);
            lemma_text_edits_keep(m, c);
        },
        FrameEvent::Enter => {
            law_edits_keep_cursor_valid(m, ' ');
            lemma_text_edits_keep(m, ' ');
        },
        FrameEvent::Keys(keys, lv) => {
            law_edits_keep_cursor_valid(m, ' ');
            lemma_text_edits_keep(m, ' ');
            lemma_vertical_step(m, lv, keys.up, keys.down);
        },
        FrameEvent::Repeat(key) => {
            law_edits_keep_cursor_valid(m, ' ');
            lemma_text_edits_keep(m, ' ');
        },
        _ => {},
    }
}

/// The invariants of the three laws below, carried over any run of events.
proof fn lemma_run_events(m: InputState, es: Seq<FrameEvent>)
    requires
        m.wf(),
        byte_len(m.text) + 4 * es.len() + 4 < usize::MAX,
    ensures
        run_events(m, es).wf(),
        byte_len(run_events(m, es).text) <= byte_len(m.text) + 4 * es.len(),
        run_events(m, es).max_chars == m.max_chars,
        run_events(m, es).allowed_chars == m.allowed_chars,
        m.max_chars matches Some(k) ==> (m.text.len() <= k ==> run_events(m, es).text.len() <= k),
        m.allowed_chars matches Some(a) ==> (within_whitelist(a, m.text) ==> within_whitelist(
            a,
            run_events(m, es).text,
        )),
    decreases es.len(),
{
    if es.len() > 0 {
        let r = es.drop_last();
        lemma_run_events(m, r);
        lemma_event_step(run_events(m, r), es.last());
    }
}

/// Law: over any run of update events (a whole frame, or many), the cursor
/// stays within the text and at a character boundary, given room for the
/// bytes that typing may add.
pub proof fn law_frame_keeps_cursor_valid(m: InputState, es: Seq<FrameEvent>)
    requires
        m.wf(),
        byte_len(m.text) + 4 * es.len() + 4 < usize::MAX,
    ensures
        run_events(m, es).wf(),
        run_events(m, es).at_boundary(),
{
    lemma_run_events(m, es);
}

/// Law: over any run of update events, a text within the character limit
/// stays within it.
pub proof fn law_frame_keeps_char_limit(m: InputState, es: Seq<FrameEvent>, k: nat)
    requires
        m.wf(),
        byte_len(m.text) + 4 * es.len() + 4 < usize::MAX,
        m.max_chars == Some(k),
        m.text.len() <= k,
    ensures
        run_events(m, es).text.len() <= k,
{
    lemma_run_events(m, es);
}

/// Law: over any run of update events, a text made of whitelisted characters
/// and newlines stays so: no typed character outside the whitelist is
/// inserted, and only Enter adds a newline.
pub proof fn law_frame_keeps_whitelist(m: InputState, es: Seq<FrameEvent>, a: Seq<char>)
    requires
        m.wf(),
        byte_len(m.text) + 4 * es.len() + 4 < usize::MAX,
        m.allowed_chars == Some(a),
        within_whitelist(a, m.text),
    ensures
        within_whitelist(a, run_events(m, es).text),
{
    lemma_run_events(m, es);
}

/// The column that a vertical move aims at: the remembered column, or the
/// cursor's current column when none is remembered.
pub open spec fn aimed_column(m: InputState, lv: LayoutView) -> nat {
    match m.preferred_col {
        Some(p) => p,
        None => layout_position(lv, m.cursor as int).1 as nat,
    }
}

/// Law: Up and Down follow one rule. When the cursor's display line has a
/// line above (for Up) or below (for Down), the move is a click on that line
/// at the aimed column, cut to the line's length; the aimed column is then
/// remembered. With no such line the cursor stays put, and the aimed column
/// is remembered all the same.
pub proof fn law_vertical_move_clicks_the_aimed_column(m: InputState, lv: LayoutView)
    ensures
        ({
            let l = layout_position(lv, m.cursor as int).0 as int;
            l == 0 ==> m.moved_vertically(lv, true, false) == InputState {
                preferred_col: Some(aimed_column(m, lv)),
                ..m
            }
        }),
        ({
            let l = layout_position(lv, m.cursor as int).0 as int;
            l + 1 >= lv.lines.len() ==> m.moved_vertically(lv, false, true) == InputState {
                preferred_col: Some(aimed_column(m, lv)),
                ..m
            }
        }),
        ({
            let l = layout_position(lv, m.cursor as int).0 as int;
            let p = aimed_column(m, lv);
            l > 0 ==> {
                let n = lv.lines[l - 1].len();
                m.moved_vertically(lv, true, false) == InputState {
                    preferred_col: Some(p),
                    ..m.placed_at(lv, (l - 1) as usize, (if p <= n { p } else { n }) as usize)
                }
            }
        }),
        ({
            let l = layout_position(lv, m.cursor as int).0 as int;
            let p = aimed_column(m, lv);
            l + 1 < lv.lines.len() ==> {
                let n = lv.lines[l + 1].len();
                m.moved_vertically(lv, false, true) == InputState {
                    preferred_col: Some(p),
                    ..m.placed_at(lv, (l + 1) as usize, (if p <= n { p } else { n }) as usize)
                }
            }
        }),
{
}

/// Law: a click never moves the cursor past the byte it hits. It lands at
/// the start of the character that holds the clicked byte, or at the end of
/// the text when the click hits no byte of it; the text is unchanged.
pub proof fn law_click_lands_on_the_clicked_character(m: InputState, lv: LayoutView, line: usize, col: usize)
    ensures
        ({
            let t = target_byte(lv, (line, col), byte_len(m.text)) as int;
            let r = m.placed_at(lv, line, col);
            &&& r.text == m.text
            &&& r.cursor <= t
            &&& on_boundary(m.text, r.cursor as int)
            &&& forall|j: int|
                0 <= j < m.text.len() && offset(m.text, j) <= t < #[trigger] offset(m.text, j + 1)
                    ==> r.cursor == offset(m.text, j)
            &&& t >= byte_len(m.text) ==> r.cursor == byte_len(m.text)
        }),
{
    let s = m.text;
    let t = target_byte(lv, (line, col), byte_len(s)) as int;
    lemma_floor_boundary(s, t);
    lemma_floor_index_props(s, t);
    lemma_offset_end(s);
    assert forall|j: int|
        0 <= j < s.len() && offset(s, j) <= t < #[trigger] offset(s, j + 1) implies floor_boundary(s, t)
            == offset(s, j) by {
        lemma_floor_index_unique(s, t, j);
    }
    if t >= byte_len(s) {
        let k = floor_index(s, t) as int;
        if k < s.len() {
            lemma_offset_mono(s, k + 1, s.len() as int);
        }
    }
}

/// Law: when Left or Right acts, the remembered column is forgotten, the
/// text is unchanged, and the cursor moves back (Left) or forward (Right).
pub proof fn law_left_right_forget_the_column(m: InputState, keys: KeyPresses, lv: LayoutView)
    requires
        m.wf(),
    ensures
        m.pressed(keys, lv).1 == KeyAction::Pressed(EditKey::Left) ==> {
            let r = m.pressed(keys, lv).0;
            &&& r.preferred_col is None
            &&& r.text == m.text
            &&& r.cursor < m.cursor
        },
        m.pressed(keys, lv).1 == KeyAction::Pressed(EditKey::Right) ==> {
            let r = m.pressed(keys, lv).0;
            &&& r.preferred_col is None
            &&& r.text == m.text
            &&& r.cursor > m.cursor
        },
{
    let s = m.text;
    let k = m.cursor_char();
    lemma_on_boundary(s, m.cursor as int);
    lemma_offset_end(s);
    if k > 0 {
        lemma_offset_step(s, k - 1);
        lemma_width_bounds(s[k - 1]);
    }
    if k < s.len() {
        lemma_offset_step(s, k);
        lemma_width_bounds(s[k]);
    }
}

/// Whether `m`'s text has fewer characters than its limit (always, without
/// a limit).
pub open spec fn below_char_limit(m: InputState) -> bool {
    match m.max_chars {
        None => true,
        Some(k) => m.text.len() < k,
    }
}

/// Law: the limit counts characters, not bytes. An allowed, non-control
/// character is typed (inserted at the cursor, adding one character)
/// exactly when the text has fewer characters than the limit; otherwise
/// typing changes nothing.
pub proof fn law_limit_counts_characters(m: InputState, c: char)
    requires
        m.wf(),
    ensures
        m.allows(c) && !is_control_char(c) && below_char_limit(m) ==> {
            &&& m.typed(c).text == m.text.insert(m.cursor_char(), c)
            &&& m.typed(c).text.len() == m.text.len() + 1
            &&& m.typed(c).cursor == m.cursor + char_width(c)
        },
        !below_char_limit(m) ==> m.typed(c) == m,
{
    lemma_on_boundary(m.text, m.cursor as int);
}

/// Law: Delete removes the character that starts at the cursor, wherever the
/// cursor is, and leaves the cursor in place; at the end of the text it does
/// nothing.
pub proof fn law_delete_removes_the_next_character(m: InputState)
    requires
        m.wf(),
    ensures
        m.cursor < byte_len(m.text) ==> {
            &&& m.deleted().text == m.text.remove(m.cursor_char())
            &&& m.deleted().text.len() + 1 == m.text.len()
            &&& m.deleted().cursor == m.cursor
        },
        m.cursor == byte_len(m.text) ==> m.deleted() == m,
{
    let s = m.text;
    let k = m.cursor_char();
    lemma_on_boundary(s, m.cursor as int);
    lemma_offset_end(s);
    if m.cursor < byte_len(s) && k == s.len() {
        assert(false);
    }
}

/// Law: typing a character, moving Left over it and pressing Delete gives
/// back the state before typing, at any cursor position.
pub proof fn law_delete_undoes_insert_after_left(m: InputState, c: char)
    requires
        m.wf(),
        m.has_room(),
    ensures
        m.inserted(c).moved_left().deleted() == m,
{
    let s = m.text;
    let k = m.cursor_char();
    lemma_on_boundary(s, m.cursor as int);
    lemma_insert(s, k, c);
    lemma_width_bounds(c);
    let t = s.insert(k, c);
    lemma_floor_index_of_offset(t, k + 1);
    lemma_floor_index_of_offset(t, k);
    let a = m.inserted(c);
    assert(a.cursor_char() == k + 1);
    let b = a.moved_left();
    assert(b.cursor == m.cursor);
    assert(b.cursor_char() == k);
    assert(b.cursor < byte_len(t));
    assert(t.remove(k) =~= s);
}

} // verus!
