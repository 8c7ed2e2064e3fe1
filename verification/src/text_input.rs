//! The editing state of a text input box and what each user action does to it.
//!
//! The cursor is a byte index into the UTF-8 text, as in a `String`. Text
//! can be limited to a maximum number of characters and to a whitelist of
//! characters; in multi-line mode newlines are accepted and the Up/Down keys
//! move between display lines.

use vstd::prelude::*;
use crate::chars::{chars_of, contains_char, string_of};
use crate::layout::{
    layout_position, target_byte, LayoutBuilder, LayoutView, TextLayout,
    lemma_last_match_bounds,
};
use crate::utf8::{
    byte_len, byte_length, char_width, floor_boundary, floor_index, floor_position, is_control,
    is_control_char, lemma_floor_boundary, lemma_insert, lemma_offset_end, lemma_offset_mono,
    lemma_offset_step, lemma_floor_index_of_offset, lemma_on_boundary, lemma_remove, lemma_width_bounds, offset, offset_of,
    on_boundary, utf8_width,
};

verus! {

/// An editing key whose action repeats while it is held down.
#[derive(Clone, Copy, PartialEq, Eq, Debug, Structural)]
pub enum EditKey {
    Left,
    Right,
    Delete,
    Backspace,
}

/// The editing and navigation keys newly pressed in this frame.
#[derive(Clone, Copy, Debug)]
pub struct KeyPresses {
    pub delete: bool,
    pub backspace: bool,
    pub left: bool,
    pub right: bool,
    pub up: bool,
    pub down: bool,
}

/// What a frame's key presses did.
#[derive(Clone, Copy, PartialEq, Eq, Debug, Structural)]
pub enum KeyAction {
    /// A repeatable key acted; it becomes the held key and its repeat timer restarts.
    Pressed(EditKey),
    /// Up or Down was handled in multi-line mode.
    Vertical,
    /// No key acted.
    Ignored,
}

/// The abstract state of a text input.
pub struct InputState {
    pub text: Seq<char>,
    pub cursor: nat,
    pub active: bool,
    pub enabled: bool,
    pub multiline: bool,
    pub max_chars: Option<nat>,
    pub allowed_chars: Option<Seq<char>>,
    pub prompt: Option<Seq<char>>,
    pub preferred_col: Option<nat>,
    pub last_key: Option<EditKey>,
}

impl InputState {
    /// The cursor lies within the text, at the start of a character or at
    /// the end, and the text's UTF-8 length fits a `usize`.
    pub open spec fn wf(self) -> bool {
        &&& self.cursor <= byte_len(self.text)
        &&& on_boundary(self.text, self.cursor as int)
        &&& byte_len(self.text) < usize::MAX
    }

    /// Room for one more character of any width.
    pub open spec fn has_room(self) -> bool {
        byte_len(self.text) + 4 < usize::MAX
    }

    /// The cursor is at the start of a character or at the end of the text.
    pub open spec fn at_boundary(self) -> bool {
        on_boundary(self.text, self.cursor as int)
    }

    /// Index of the character at (or just before) the cursor.
    pub open spec fn cursor_char(self) -> int {
        floor_index(self.text, self.cursor as int) as int
    }

    /// `c` passes the whitelist (every character does when there is none).
    pub open spec fn allows(self, c: char) -> bool {
        match self.allowed_chars {
            None => true,
            Some(a) => a.contains(c),
        }
    }

    /// `c` survives the text constraints: a newline in multi-line mode, or an
    /// allowed character.
    pub open spec fn keeps(self, c: char) -> bool {
        (c == '\n' && self.multiline) || self.allows(c)
    }

    pub open spec fn keep_pred(self) -> spec_fn(char) -> bool {
        |c: char| self.keeps(c)
    }

    /// `s` under the constraints: the kept characters, at most `max_chars`
    /// of them.
    pub open spec fn constrain(self, s: Seq<char>) -> Seq<char> {
        let f = s.filter(self.keep_pred());
        match self.max_chars {
            None => f,
            Some(m) => if f.len() <= m {
                f
            } else {
                f.take(m as int)
            },
        }
    }

    /// Whether typing `c` is permitted: a newline or an allowed character,
    /// while the text is below the character limit.
    pub open spec fn can_insert(self, c: char) -> bool {
        &&& (c == '\n' || self.allows(c))
        &&& match self.max_chars {
            None => true,
            Some(m) => self.text.len() < m,
        }
    }

    /// The cursor moved back to the last character boundary at or before it,
    /// and no further than the end of the text.
    pub open spec fn validated(self) -> InputState {
        InputState { cursor: floor_boundary(self.text, self.cursor as int), ..self }
    }

    /// The text replaced by `t`, and the cursor validated against it.
    pub open spec fn with_text(self, t: Seq<char>) -> InputState {
        InputState { text: t, ..self }.validated()
    }

    /// `c` inserted at the cursor, which moves past it.
    pub open spec fn inserted(self, c: char) -> InputState {
        InputState {
            text: self.text.insert(self.cursor_char(), c),
            cursor: self.cursor + char_width(c),
            ..self
        }
    }

    /// Typing `c`: inserted when it is not a control character and may be inserted.
    pub open spec fn typed(self, c: char) -> InputState {
        if !is_control_char(c) && self.can_insert(c) {
            self.inserted(c)
        } else {
            self
        }
    }

    /// Enter: a newline is inserted in multi-line mode when permitted.
    pub open spec fn entered(self) -> InputState {
        if self.multiline && self.can_insert('\n') {
            self.inserted('\n')
        } else {
            self
        }
    }

    /// Delete: the character after the cursor is removed.
    pub open spec fn deleted(self) -> InputState {
        if self.cursor < byte_len(self.text) {
            InputState { text: self.text.remove(self.cursor_char()), ..self }
        } else {
            self
        }
    }

    /// Backspace: the character before the cursor is removed and the cursor
    /// moves to where it started.
    pub open spec fn backspaced(self) -> InputState {
        if self.cursor > 0 {
            InputState {
                text: self.text.remove(self.cursor_char() - 1),
                cursor: offset(self.text, self.cursor_char() - 1),
                ..self
            }
        } else {
            self
        }
    }

    /// Left: the cursor moves to the start of the previous character.
    pub open spec fn moved_left(self) -> InputState {
        if self.cursor > 0 {
            InputState { cursor: offset(self.text, self.cursor_char() - 1), ..self }
        } else {
            self
        }
    }

    /// Right: the cursor moves past the next character.
    pub open spec fn moved_right(self) -> InputState {
        if self.cursor < byte_len(self.text) {
            InputState { cursor: offset(self.text, self.cursor_char() + 1), ..self }
        } else {
            self
        }
    }

    /// The action of a held key when it repeats.
    pub open spec fn repeated(self, key: EditKey) -> InputState {
        match key {
            EditKey::Left => self.moved_left(),
            EditKey::Right => self.moved_right(),
            EditKey::Delete => self.deleted(),
            EditKey::Backspace => self.backspaced(),
        }
    }

    /// The cursor placed at display position (`line`, `col`) of layout `lv`.
    pub open spec fn placed_at(self, lv: LayoutView, line: usize, col: usize) -> InputState {
        InputState {
            cursor: floor_boundary(self.text, target_byte(lv, (line, col), byte_len(self.text)) as int),
            ..self
        }
    }

    /// Up (`up`) or Down (`down`) in layout `lv`: the cursor goes to the
    /// previous or next display line, at the remembered column (the current
    /// one when none is remembered) limited to that line's length. The column
    /// is remembered either way.
    pub open spec fn moved_vertically(self, lv: LayoutView, up: bool, down: bool) -> InputState {
        let pos = layout_position(lv, self.cursor as int);
        let line = pos.0 as int;
        let pref: nat = match self.preferred_col {
            Some(p) => p,
            None => pos.1 as nat,
        };
        let new_line: int = if up && line > 0 {
            line - 1
        } else if down && line + 1 < lv.lines.len() {
            line + 1
        } else {
            line
        };
        if new_line != line {
            let len = lv.lines[new_line].len();
            let new_col: nat = if pref < len { pref } else { len };
            InputState { preferred_col: Some(pref), ..self.placed_at(lv, new_line as usize, new_col as usize) }
        } else {
            InputState { preferred_col: Some(pref), ..self }
        }
    }

    /// The key presses of one frame. The first of Delete, Backspace, Left,
    /// Right that can act does so and becomes the held key; Left and Right
    /// forget the remembered column. Otherwise, in multi-line mode, Up or Down
    /// moves between lines, and the remembered column is forgotten when Left
    /// or Right was also pressed.
    pub open spec fn pressed(self, keys: KeyPresses, lv: LayoutView) -> (InputState, KeyAction) {
        let len = byte_len(self.text);
        if keys.delete && self.cursor < len {
            (InputState { last_key: Some(EditKey::Delete), ..self.deleted() }, KeyAction::Pressed(EditKey::Delete))
        } else if keys.backspace && self.cursor > 0 {
            (
                InputState { last_key: Some(EditKey::Backspace), ..self.backspaced() },
                KeyAction::Pressed(EditKey::Backspace),
            )
        } else if keys.left && self.cursor > 0 {
            (
                InputState { last_key: Some(EditKey::Left), preferred_col: None, ..self.moved_left() },
                KeyAction::Pressed(EditKey::Left),
            )
        } else if keys.right && self.cursor < len {
            (
                InputState { last_key: Some(EditKey::Right), preferred_col: None, ..self.moved_right() },
                KeyAction::Pressed(EditKey::Right),
            )
        } else if self.multiline && (keys.up || keys.down) {
            let v = self.moved_vertically(lv, keys.up, keys.down);
            (
                if keys.left || keys.right {
                    InputState { preferred_col: None, ..v }
                } else {
                    v
                },
                KeyAction::Vertical,
            )
        } else {
            (self, KeyAction::Ignored)
        }
    }
}

} // verus!

verus! {

/// A text input: its text, cursor, focus, and input restrictions.
pub struct TextInput {
    text: Vec<char>,
    cursor_index: usize,
    active: bool,
    enabled: bool,
    multiline: bool,
    max_chars: Option<usize>,
    allowed_chars: Option<String>,
    prompt: Option<String>,
    preferred_col: Option<usize>,
    last_key: Option<EditKey>,
}

pub open spec fn nat_opt(o: Option<usize>) -> Option<nat> {
    match o {
        Some(v) => Some(v as nat),
        None => None,
    }
}

pub open spec fn chars_opt(o: Option<String>) -> Option<Seq<char>> {
    match o {
        Some(s) => Some(s@),
        None => None,
    }
}

impl View for TextInput {
    type V = InputState;

    closed spec fn view(&self) -> InputState {
        InputState {
            text: self.text@,
            cursor: self.cursor_index as nat,
            active: self.active,
            enabled: self.enabled,
            multiline: self.multiline,
            max_chars: nat_opt(self.max_chars),
            allowed_chars: chars_opt(self.allowed_chars),
            prompt: chars_opt(self.prompt),
            preferred_col: nat_opt(self.preferred_col),
            last_key: self.last_key,
        }
    }
}

impl TextInput {
    /// The cursor always lies on a character boundary of the text.
    #[verifier::type_invariant]
    spec fn inv(self) -> bool {
        self@.wf()
    }

    /// An empty, enabled, inactive single-line input without limits or prompt.
    pub fn new() -> (t: TextInput)
        ensures
            t@ == (InputState {
                text: Seq::empty(),
                cursor: 0,
                active: false,
                enabled: true,
                multiline: false,
                max_chars: None,
                allowed_chars: None,
                prompt: None,
                preferred_col: None,
                last_key: None,
            }),
            t@.wf(),
    {
        let text: Vec<char> = Vec::new();
        proof {
            lemma_floor_boundary(text@, 0);
        }
        let t = TextInput {
            text,
            cursor_index: 0,
            active: false,
            enabled: true,
            multiline: false,
            max_chars: None,
            allowed_chars: None,
            prompt: None,
            preferred_col: None,
            last_key: None,
        };
        proof {
            assert(t@.text =~= Seq::<char>::empty());
        }
        t
    }

    /// Enables or disables multi-line mode.
    pub fn set_multiline(&mut self, multiline: bool)
        ensures
            final(self)@ == (InputState { multiline, ..old(self)@ }),
    {
        proof {
            use_type_invariant(&*self);
        }
        self.multiline = multiline;
    }

    pub fn is_multiline(&self) -> (r: bool)
        ensures
            r == self@.multiline,
    {
        self.multiline
    }

    /// The current text.
    pub fn get_text(&self) -> (s: String)
        ensures
            s@ == self@.text,
    {
        string_of(&self.text)
    }

    /// The number of characters of the text.
    pub fn char_count(&self) -> (n: usize)
        ensures
            n == self@.text.len(),
    {
        self.text.len()
    }

    /// The length of the text in bytes of UTF-8.
    pub fn text_len(&self) -> (n: usize)
        ensures
            n == byte_len(self@.text),
    {
        proof {
            use_type_invariant(self);
        }
        byte_length(&self.text)
    }

    pub fn is_active(&self) -> (r: bool)
        ensures
            r == self@.active,
    {
        self.active
    }

    pub fn set_active(&mut self, active: bool)
        ensures
            final(self)@ == (InputState { active, ..old(self)@ }),
    {
        proof {
            use_type_invariant(&*self);
        }
        self.active = active;
    }

    /// The cursor's byte index into the text.
    pub fn get_cursor_index(&self) -> (i: usize)
        ensures
            i == self@.cursor,
    {
        self.cursor_index
    }

    /// Moves the cursor to byte `index` when it lies within the text, then
    /// back to the start of the character that holds it; does nothing when
    /// `index` lies past the end.
    pub fn set_cursor_index(&mut self, index: usize)
        ensures
            final(self)@ == (if index <= byte_len(old(self)@.text) {
                InputState { cursor: index as nat, ..old(self)@ }.validated()
            } else {
                old(self)@
            }),
            final(self)@.wf(),
    {
        proof {
            use_type_invariant(&*self);
        }
        if index <= byte_length(&self.text) {
            let (_, b) = floor_position(&self.text, index);
            proof {
                lemma_floor_boundary(self.text@, index as int);
            }
            self.cursor_index = b;
        }
    }

    pub fn get_prompt(&self) -> (p: Option<&String>)
        ensures
            match p {
                Some(s) => self@.prompt == Some(s@),
                None => self@.prompt is None,
            },
    {
        match &self.prompt {
            Some(s) => Some(s),
            None => None,
        }
    }

    /// Sets the text shown while the input is empty.
    pub fn set_prompt(&mut self, prompt: &str)
        ensures
            final(self)@ == (InputState { prompt: Some(prompt@), ..old(self)@ }),
    {
        proof {
            use_type_invariant(&*self);
        }
        self.prompt = Some(string_of(&chars_of(prompt)));
    }

    pub fn is_enabled(&self) -> (r: bool)
        ensures
            r == self@.enabled,
    {
        self.enabled
    }

    /// Enables or disables the input; disabling also deactivates it.
    pub fn set_enabled(&mut self, enabled: bool)
        ensures
            final(self)@ == (InputState {
                enabled,
                active: if enabled { old(self)@.active } else { false },
                ..old(self)@
            }),
    {
        proof {
            use_type_invariant(&*self);
        }
        self.enabled = enabled;
        if !enabled {
            self.active = false;
        }
    }

    /// Limits how many characters can be typed; the current text is kept.
    pub fn set_max_chars(&mut self, max: usize)
        ensures
            final(self)@ == (InputState { max_chars: Some(max as nat), ..old(self)@ }),
    {
        proof {
            use_type_invariant(&*self);
        }
        self.max_chars = Some(max);
    }

    /// Removes the character limit.
    pub fn clear_max_chars(&mut self)
        ensures
            final(self)@ == (InputState { max_chars: None, ..old(self)@ }),
    {
        proof {
            use_type_invariant(&*self);
        }
        self.max_chars = None;
    }

    /// Removes the whitelist; the current text is kept.
    pub fn clear_allowed_chars(&mut self)
        ensures
            final(self)@ == (InputState { allowed_chars: None, ..old(self)@ }),
    {
        proof {
            use_type_invariant(&*self);
        }
        self.allowed_chars = None;
    }

    pub fn get_allowed_chars(&self) -> (a: Option<&str>)
        ensures
            match a {
                Some(s) => self@.allowed_chars == Some(s@),
                None => self@.allowed_chars is None,
            },
    {
        match &self.allowed_chars {
            Some(s) => Some(s.as_str()),
            None => None,
        }
    }

    /// Whether `c` passes the whitelist.
    pub fn is_char_allowed(&self, c: char) -> (r: bool)
        ensures
            r == self@.allows(c),
    {
        match &self.allowed_chars {
            None => true,
            Some(a) => contains_char(&chars_of(a.as_str()), c),
        }
    }

    /// Whether `c` survives the text constraints.
    fn keeps_char(&self, c: char) -> (r: bool)
        ensures
            r == self@.keeps(c),
    {
        (c == '\n' && self.multiline) || self.is_char_allowed(c)
    }

    /// Whether `n` characters are still below the character limit.
    fn below_limit(&self, n: usize) -> (r: bool)
        ensures
            r == (match self@.max_chars {
                None => true,
                Some(m) => n < m,
            }),
    {
        match self.max_chars {
            None => true,
            Some(m) => n < m,
        }
    }

    /// The characters of `s` under the constraints (see `InputState::constrain`).
    pub fn constrain_chars(&self, s: &Vec<char>) -> (r: Vec<char>)
        ensures
            r@ == self@.constrain(s@),
    {
        let ghost p = self@.keep_pred();
        let mut out: Vec<char> = Vec::new();
        let mut i: usize = 0;
        while i < s.len() && self.below_limit(out.len())
            invariant
                i <= s.len(),
                p == self@.keep_pred(),
                out@ == s@.take(i as int).filter(p),
                self@.max_chars matches Some(m) ==> out.len() <= m,
            decreases s.len() - i,
        {
            let c = s[i];
            proof {
                assert(s@.take(i + 1) =~= s@.take(i as int).push(c));
                s@.take(i as int).lemma_filter_push(c, p);
            }
            if self.keeps_char(c) {
                out.push(c);
            }
            i = i + 1;
        }
        proof {
            let f = s@.filter(p);
            assert(s@ =~= s@.take(i as int) + s@.skip(i as int));
            Seq::filter_distributes_over_add(s@.take(i as int), s@.skip(i as int), p);
            if i == s.len() {
                assert(s@.take(i as int) =~= s@);
            }
            match self@.max_chars {
                None => {},
                Some(m) => {
                    if out.len() == m {
                        assert(f.take(m as int) =~= out@);
                        if f.len() <= m {
                            assert(f =~= out@);
                        }
                    }
                },
            }
        }
        out
    }

    /// `text` under the constraints, as a string.
    pub fn apply_text_constraints(&self, text: &str) -> (r: String)
        ensures
            r@ == self@.constrain(text@),
    {
        string_of(&self.constrain_chars(&chars_of(text)))
    }

    /// Whether typing `c` is permitted.
    pub fn can_insert_char(&self, c: char) -> (r: bool)
        ensures
            r == self@.can_insert(c),
    {
        if c != '\n' && !self.is_char_allowed(c) {
            return false;
        }
        match self.max_chars {
            None => true,
            Some(m) => self.text.len() < m,
        }
    }

    /// Moves the cursor back to the last character boundary at or before it,
    /// and no further than the end of the text. Every operation already keeps
    /// the cursor on a boundary, so the cursor stays where it is.
    pub fn ensure_cursor_validity(&mut self)
        ensures
            final(self)@ == old(self)@.validated(),
            final(self)@ == old(self)@,
            final(self)@.wf(),
    {
        proof {
            use_type_invariant(&*self);
        }
        let (_, b) = floor_position(&self.text, self.cursor_index);
        proof {
            lemma_floor_boundary(self.text@, self.cursor_index as int);
        }
        self.cursor_index = b;
    }

    /// Takes the text out, leaving the empty text with the cursor at 0.
    fn take_text(&mut self) -> (t: Vec<char>)
        ensures
            t@ == old(self)@.text,
            final(self)@ == (InputState { text: Seq::empty(), cursor: 0, ..old(self)@ }),
    {
        proof {
            use_type_invariant(&*self);
        }
        proof {
            lemma_floor_boundary(self.text@, 0);
        }
        self.cursor_index = 0;
        let mut t: Vec<char> = Vec::new();
        proof {
            lemma_floor_boundary(t@, 0);
        }
        std::mem::swap(&mut self.text, &mut t);
        t
    }

    /// Replaces the text by `t` and puts the cursor at the last character
    /// boundary of `t` at or before `target`.
    fn put_text(&mut self, t: Vec<char>, target: usize)
        requires
            byte_len(t@) < usize::MAX,
        ensures
            final(self)@ == (InputState {
                text: t@,
                cursor: floor_boundary(t@, target as int),
                ..old(self)@
            }),
            final(self)@.wf(),
    {
        proof {
            use_type_invariant(&*self);
        }
        proof {
            lemma_floor_boundary(self.text@, 0);
            lemma_floor_boundary(t@, 0);
            lemma_floor_boundary(t@, target as int);
        }
        self.cursor_index = 0;
        self.text = t;
        let (_, b) = floor_position(&self.text, target);
        self.cursor_index = b;
    }

    /// Replaces the text by `text` under the constraints; the cursor is then
    /// validated.
    pub fn set_text(&mut self, text: &str)
        requires
            byte_len(text@) < usize::MAX,
        ensures
            final(self)@ == old(self)@.with_text(old(self)@.constrain(text@)),
            final(self)@.wf(),
    {
        proof {
            use_type_invariant(&*self);
        }
        let t = self.constrain_chars(&chars_of(text));
        proof {
            lemma_constrain_bound(old(self)@, text@);
        }
        let target = self.cursor_index;
        self.put_text(t, target);
    }

    /// Restricts the text to the characters of `allowed` (newlines stay
    /// allowed in multi-line mode); the current text is filtered at once and
    /// the cursor validated.
    pub fn set_allowed_chars(&mut self, allowed: &str)
        ensures
            final(self)@ == (InputState { allowed_chars: Some(allowed@), ..old(self)@ }).with_text(
                (InputState { allowed_chars: Some(allowed@), ..old(self)@ }).constrain(old(self)@.text),
            ),
            final(self)@.wf(),
    {
        proof {
            use_type_invariant(&*self);
        }
        self.allowed_chars = Some(string_of(&chars_of(allowed)));
        let t = self.constrain_chars(&self.text);
        proof {
            lemma_constrain_bound(self@, old(self)@.text);
        }
        let target = self.cursor_index;
        self.put_text(t, target);
    }

    /// Inserts `c` at the cursor and moves the cursor past it.
    fn insert_at_cursor(&mut self, c: char)
        requires
            old(self)@.has_room(),
        ensures
            final(self)@ == old(self)@.inserted(c),
            final(self)@.wf(),
    {
        proof {
            use_type_invariant(&*self);
        }
        let ghost s = self.text@;
        let (k, _) = floor_position(&self.text, self.cursor_index);
        proof {
            lemma_on_boundary(s, self.cursor_index as int);
            lemma_insert(s, k as int, c);
            lemma_width_bounds(c);
        }
        let target = self.cursor_index + utf8_width(c);
        let mut t = self.take_text();
        t.insert(k, c);
        proof {
            lemma_floor_boundary(t@, target as int);
        }
        self.put_text(t, target);
    }

    /// Removes the character after the cursor, if any.
    fn delete_forward(&mut self)
        ensures
            final(self)@ == old(self)@.deleted(),
            final(self)@.wf(),
    {
        proof {
            use_type_invariant(&*self);
        }
        let ghost s = self.text@;
        if self.cursor_index < byte_length(&self.text) {
            let (k, _) = floor_position(&self.text, self.cursor_index);
            proof {
                lemma_on_boundary(s, self.cursor_index as int);
                lemma_remove(s, k as int);
            }
            let target = self.cursor_index;
            let mut t = self.take_text();
            t.remove(k);
            proof {
                lemma_floor_boundary(t@, target as int);
            }
            self.put_text(t, target);
        }
    }

    /// Removes the character before the cursor, if any, and moves the cursor
    /// to where it started.
    fn delete_backward(&mut self)
        ensures
            final(self)@ == old(self)@.backspaced(),
            final(self)@.wf(),
    {
        proof {
            use_type_invariant(&*self);
        }
        let ghost s = self.text@;
        if self.cursor_index > 0 {
            let (k, _) = floor_position(&self.text, self.cursor_index);
            proof {
                lemma_on_boundary(s, self.cursor_index as int);
                lemma_remove(s, k - 1);
            }
            let prev = offset_of(&self.text, k - 1);
            let mut t = self.take_text();
            t.remove(k - 1);
            proof {
                lemma_floor_boundary(t@, prev as int);
            }
            self.put_text(t, prev);
        }
    }

    /// Moves the cursor to the start of the previous character, if any.
    fn move_left(&mut self)
        ensures
            final(self)@ == old(self)@.moved_left(),
            final(self)@.wf(),
    {
        proof {
            use_type_invariant(&*self);
        }
        let ghost s = self.text@;
        if self.cursor_index > 0 {
            let (k, _) = floor_position(&self.text, self.cursor_index);
            proof {
                lemma_on_boundary(s, self.cursor_index as int);
                lemma_offset_step(s, k - 1);
                lemma_floor_index_of_offset(s, k - 1);
            }
            let target = self.cursor_index - utf8_width(self.text[k - 1]);
            let (_, b) = floor_position(&self.text, target);
            proof {
                lemma_floor_boundary(s, target as int);
            }
            self.cursor_index = b;
        }
    }

    /// Moves the cursor past the next character, if any.
    fn move_right(&mut self)
        ensures
            final(self)@ == old(self)@.moved_right(),
            final(self)@.wf(),
    {
        proof {
            use_type_invariant(&*self);
        }
        let ghost s = self.text@;
        if self.cursor_index < byte_length(&self.text) {
            let (k, _) = floor_position(&self.text, self.cursor_index);
            proof {
                lemma_on_boundary(s, self.cursor_index as int);
                lemma_offset_step(s, k as int);
                lemma_floor_index_of_offset(s, k + 1);
                lemma_offset_mono(s, k + 1, s.len() as int);
                lemma_offset_end(s);
            }
            let target = self.cursor_index + utf8_width(self.text[k]);
            let (_, b) = floor_position(&self.text, target);
            proof {
                lemma_floor_boundary(s, target as int);
            }
            self.cursor_index = b;
        }
    }

    /// A typed character: inserted at the cursor unless it is a control
    /// character or may not be inserted.
    pub fn type_char(&mut self, c: char)
        requires
            old(self)@.has_room(),
        ensures
            final(self)@ == old(self)@.typed(c),
            final(self)@.wf(),
    {
        proof {
            use_type_invariant(&*self);
        }
        if !is_control(c) && self.can_insert_char(c) {
            self.insert_at_cursor(c);
        }
    }

    /// Enter: inserts a newline at the cursor in multi-line mode, when permitted.
    pub fn press_enter(&mut self)
        requires
            old(self)@.has_room(),
        ensures
            final(self)@ == old(self)@.entered(),
            final(self)@.wf(),
    {
        proof {
            use_type_invariant(&*self);
        }
        if self.multiline && self.can_insert_char('\n') {
            self.insert_at_cursor('\n');
        }
    }

    /// The repeated action of the held key `key`.
    pub fn repeat_key(&mut self, key: EditKey)
        ensures
            final(self)@ == old(self)@.repeated(key),
            final(self)@.wf(),
    {
        proof {
            use_type_invariant(&*self);
        }
        match key {
            EditKey::Left => self.move_left(),
            EditKey::Right => self.move_right(),
            EditKey::Delete => self.delete_forward(),
            EditKey::Backspace => self.delete_backward(),
        }
    }

    /// Where the cursor is drawn in `layout`: its mapped (line, column), or
    /// the end of the last line when its position is not mapped.
    pub fn cursor_line_col(&self, layout: &TextLayout) -> (p: (usize, usize))
        ensures
            p == layout_position(layout@, self@.cursor as int),
    {
        layout.position_at(self.cursor_index)
    }

    /// Places the cursor at display position (`line`, `col`): at the last
    /// byte mapped there, or at the end of the text when none is; then
    /// validates it.
    pub fn place_cursor(&mut self, layout: &TextLayout, line: usize, col: usize)
        ensures
            final(self)@ == old(self)@.placed_at(layout@, line, col),
            final(self)@.wf(),
    {
        proof {
            use_type_invariant(&*self);
        }
        proof {
            lemma_last_match_bounds(layout@.mapping, (line, col));
        }
        let target = match layout.find_position(line, col) {
            Some(b) => b,
            None => byte_length(&self.text),
        };
        let (_, b) = floor_position(&self.text, target);
        proof {
            lemma_floor_boundary(self.text@, target as int);
        }
        self.cursor_index = b;
    }

    /// Up/Down navigation in `layout` (see `InputState::moved_vertically`).
    fn move_vertically(&mut self, layout: &TextLayout, up: bool, down: bool)
        ensures
            final(self)@ == old(self)@.moved_vertically(layout@, up, down),
            final(self)@.wf(),
    {
        proof {
            use_type_invariant(&*self);
        }
        let (line, col) = layout.position_at(self.cursor_index);
        let pref = match self.preferred_col {
            Some(p) => p,
            None => col,
        };
        self.preferred_col = Some(pref);
        let n = layout.line_count();
        let mut new_line = line;
        if up && line > 0 {
            new_line = line - 1;
        } else if down && n > 0 && line < n - 1 {
            new_line = line + 1;
        }
        if new_line != line {
            let len = layout.line_len(new_line);
            let new_col = if pref < len {
                pref
            } else {
                len
            };
            self.place_cursor(layout, new_line, new_col);
        }
    }

    /// Handles the editing and navigation keys pressed in one frame (see
    /// `InputState::pressed`); `layout` is the current layout of the text.
    pub fn handle_key_presses(&mut self, keys: KeyPresses, layout: &TextLayout) -> (r: KeyAction)
        ensures
            (final(self)@, r) == old(self)@.pressed(keys, layout@),
            final(self)@.wf(),
    {
        proof {
            use_type_invariant(&*self);
        }
        let len = byte_length(&self.text);
        if keys.delete && self.cursor_index < len {
            self.delete_forward();
            self.last_key = Some(EditKey::Delete);
            KeyAction::Pressed(EditKey::Delete)
        } else if keys.backspace && self.cursor_index > 0 {
            self.delete_backward();
            self.last_key = Some(EditKey::Backspace);
            KeyAction::Pressed(EditKey::Backspace)
        } else if keys.left && self.cursor_index > 0 {
            self.move_left();
            self.last_key = Some(EditKey::Left);
            self.preferred_col = None;
            KeyAction::Pressed(EditKey::Left)
        } else if keys.right && self.cursor_index < len {
            self.move_right();
            self.last_key = Some(EditKey::Right);
            self.preferred_col = None;
            KeyAction::Pressed(EditKey::Right)
        } else if self.multiline && (keys.up || keys.down) {
            self.move_vertically(layout, keys.up, keys.down);
            if keys.left || keys.right {
                self.preferred_col = None;
            }
            KeyAction::Vertical
        } else {
            KeyAction::Ignored
        }
    }

    /// The characters before the cursor.
    pub fn chars_before_cursor(&self) -> (v: Vec<char>)
        ensures
            v@ == self@.text.take(self@.cursor_char()),
            byte_len(v@) == self@.cursor,
    {
        proof {
            use_type_invariant(self);
        }
        let (k, _) = floor_position(&self.text, self.cursor_index);
        proof {
            lemma_on_boundary(self.text@, self.cursor_index as int);
        }
        let mut v: Vec<char> = Vec::new();
        let mut i: usize = 0;
        while i < k
            invariant
                i <= k <= self.text@.len(),
                v@ == self.text@.take(i as int),
            decreases k - i,
        {
            v.push(self.text[i]);
            proof {
                assert(self.text@.take(i + 1) =~= self.text@.take(i as int).push(self.text@[i as int]));
            }
            i = i + 1;
        }
        v
    }

    /// A builder for the layout of the current text in the current mode.
    pub fn layout_builder(&self) -> (b: LayoutBuilder)
        ensures
            b.wf(),
            b.source() == self@.text,
            b.is_multiline() == self@.multiline,
            b.position() == (if self@.multiline { 0 } else { self@.text.len() }),
            b.current_line().len() == 0,
            b.decisions() == Seq::<bool>::empty(),
    {
        proof {
            use_type_invariant(self);
        }
        LayoutBuilder::new(&self.text, self.multiline)
    }

    /// The held repeatable key, if any.
    pub fn last_key(&self) -> (k: Option<EditKey>)
        ensures
            k == self@.last_key,
    {
        self.last_key
    }

    /// The held key was released.
    pub fn release_key(&mut self)
        ensures
            final(self)@ == (InputState { last_key: None, ..old(self)@ }),
    {
        proof {
            use_type_invariant(&*self);
        }
        self.last_key = None;
    }

    /// Forgets the column remembered for Up/Down navigation.
    pub fn clear_preferred_column(&mut self)
        ensures
            final(self)@ == (InputState { preferred_col: None, ..old(self)@ }),
    {
        proof {
            use_type_invariant(&*self);
        }
        self.preferred_col = None;
    }

    /// The column remembered for Up/Down navigation.
    pub fn preferred_column(&self) -> (c: Option<usize>)
        ensures
            nat_opt(c) == self@.preferred_col,
    {
        self.preferred_col
    }

    /// Start of a frame's update: a disabled input is deactivated and takes
    /// no input (returns `false`).
    pub fn begin_update(&mut self) -> (interactive: bool)
        ensures
            interactive == old(self)@.enabled,
            final(self)@ == (if old(self)@.enabled {
                old(self)@
            } else {
                InputState { active: false, ..old(self)@ }
            }),
    {
        proof {
            use_type_invariant(&*self);
        }
        if !self.enabled {
            self.active = false;
            return false;
        }
        true
    }
}

/// Filtering never adds bytes.
pub proof fn lemma_filter_byte_len(s: Seq<char>, p: spec_fn(char) -> bool)
    ensures
        byte_len(s.filter(p)) <= byte_len(s),
        s.filter(p).len() <= s.len(),
    decreases s.len(),
{
    reveal(Seq::filter);
    if s.len() > 0 {
        lemma_filter_byte_len(s.drop_last(), p);
        let f = s.drop_last().filter(p);
        assert(f.push(s.last()).drop_last() =~= f);
    }
}

/// A prefix has no more bytes than the whole.
pub proof fn lemma_take_byte_len(s: Seq<char>, k: int)
    requires
        0 <= k <= s.len(),
    ensures
        byte_len(s.take(k)) <= byte_len(s),
{
    lemma_offset_mono(s, k, s.len() as int);
    lemma_offset_end(s);
}

/// The constrained text is never longer than its source, in characters or bytes.
pub proof fn lemma_constrain_bound(m: InputState, s: Seq<char>)
    ensures
        m.constrain(s).len() <= s.len(),
        byte_len(m.constrain(s)) <= byte_len(s),
{
    let p = m.keep_pred();
    let f = s.filter(p);
    lemma_filter_byte_len(s, p);
    match m.max_chars {
        None => {},
        Some(mx) => {
            if mx == 0 {
                let k: int = if s.len() == 0 { 0 } else { 1 };
                lemma_filter_byte_len(s.take(k), p);
                lemma_take_byte_len(s, k);
            } else if f.len() > mx {
                lemma_take_byte_len(f, mx as int);
            }
        },
    }
}

} // verus!
