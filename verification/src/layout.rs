//! Layout of the text into display lines, and the map from each byte
//! position of the text to the (line, column) where the cursor is drawn.
//!
//! In single-line mode the whole text is one line. In multi-line mode a
//! newline ends a line, and a character that would overflow the box width
//! starts a new line unless the current line is empty. Whether a character
//! overflows is decided by font metrics, which the caller supplies as one
//! `bool` per character.

use vstd::prelude::*;
use crate::utf8::{
    byte_len, char_width, floor_index, lemma_floor_index_unique, lemma_offset_prefix, lemma_offset_end, lemma_offset_mono,
    lemma_offset_step, lemma_width_bounds, offset, utf8_width, lemma_floor_index_of_offset,
};

verus! {

/// A laid-out text: the display lines and, for each byte position `0..=len`
/// of the text, the (line, column) of the cursor placed there.
pub struct LayoutView {
    pub lines: Seq<Seq<char>>,
    pub mapping: Seq<(usize, usize)>,
}

impl LayoutView {
    /// Every mapped line is at most the number of lines (a multi-line
    /// layout of the empty text has no line, and its end maps to line 0).
    pub open spec fn wf(self) -> bool {
        forall|i: int| 0 <= i < self.mapping.len() ==> #[trigger] self.mapping[i].0 <= self.lines.len()
    }
}

/// Where the cursor at byte `b` is drawn: its mapped (line, column), or the
/// end of the last line when `b` is not mapped.
pub open spec fn layout_position(lv: LayoutView, b: int) -> (usize, usize) {
    if 0 <= b < lv.mapping.len() {
        lv.mapping[b]
    } else if lv.lines.len() == 0 {
        (0usize, 0usize)
    } else {
        ((lv.lines.len() - 1) as usize, lv.lines.last().len() as usize)
    }
}

/// The last byte position that maps to `t`, or -1 when none does.
pub open spec fn last_match(m: Seq<(usize, usize)>, t: (usize, usize)) -> int
    decreases m.len(),
{
    if m.len() == 0 {
        -1
    } else if m.last() == t {
        m.len() - 1
    } else {
        last_match(m.drop_last(), t)
    }
}

/// The byte position to place the cursor at for display position `t`: the
/// last one mapped to `t`, or `end` when none is.
pub open spec fn target_byte(lv: LayoutView, t: (usize, usize), end: nat) -> nat {
    if last_match(lv.mapping, t) >= 0 {
        last_match(lv.mapping, t) as nat
    } else {
        end
    }
}

/// The display line to use for a clicked line: at most the last line.
pub open spec fn clamped_line(lv: LayoutView, raw: nat) -> nat {
    let last: nat = if lv.lines.len() == 0 { 0 } else { (lv.lines.len() - 1) as nat };
    if raw < last { raw } else { last }
}

pub proof fn lemma_last_match_bounds(m: Seq<(usize, usize)>, t: (usize, usize))
    ensures
        -1 <= last_match(m, t) < m.len(),
        last_match(m, t) >= 0 ==> m[last_match(m, t)] == t,
    decreases m.len(),
{
    if m.len() > 0 {
        lemma_last_match_bounds(m.drop_last(), t);
    }
}

/// Single-line layout: one line holding the whole text; byte `b` maps to
/// line 0 and the index of the character that starts at or before `b`.
pub open spec fn single_line_layout(s: Seq<char>) -> LayoutView {
    LayoutView {
        lines: seq![s],
        mapping: Seq::new(byte_len(s) + 1, |b: int| (0usize, floor_index(s, b) as usize)),
    }
}

/// State of the line-wrapping pass after a prefix of the text.
pub struct WrapState {
    pub lines: Seq<Seq<char>>,
    pub current: Seq<char>,
    pub mapping: Seq<(usize, usize)>,
}

pub open spec fn empty_wrap_state() -> WrapState {
    WrapState { lines: seq![], current: seq![], mapping: seq![] }
}

/// Whether the character `c`, deemed to overflow or not, wraps the line.
pub open spec fn wraps(st: WrapState, c: char, overflow: bool) -> bool {
    c != '\n' && overflow && st.current.len() > 0
}

/// One character of the wrapping pass. A wrap moves the current line into
/// `lines`; a newline maps to the end of the line it closes and ends that
/// line; any other character maps each of its bytes to its own (line, column)
/// and joins the current line.
pub open spec fn wrap_step(st: WrapState, c: char, overflow: bool) -> WrapState {
    let lines1 = if wraps(st, c, overflow) { st.lines.push(st.current) } else { st.lines };
    let cur1 = if wraps(st, c, overflow) { Seq::<char>::empty() } else { st.current };
    if c == '\n' {
        WrapState {
            lines: lines1.push(cur1),
            current: Seq::<char>::empty(),
            mapping: st.mapping.push((lines1.len() as usize, cur1.len() as usize)),
        }
    } else {
        WrapState {
            lines: lines1,
            current: cur1.push(c),
            mapping: st.mapping + Seq::new(
                char_width(c),
                |i: int| (lines1.len() as usize, cur1.len() as usize),
            ),
        }
    }
}

/// The wrapping pass over `s`, where `overflow[i]` tells whether character
/// `i` would overflow the line it is appended to.
pub open spec fn wrap_prefix(s: Seq<char>, overflow: Seq<bool>) -> WrapState
    decreases s.len(),
{
    if s.len() == 0 {
        empty_wrap_state()
    } else {
        wrap_step(wrap_prefix(s.drop_last(), overflow), s.last(), overflow[s.len() - 1])
    }
}

/// Whether `s` ends with a newline.
pub open spec fn ends_with_newline(s: Seq<char>) -> bool {
    s.len() > 0 && s.last() == '\n'
}

/// End of the pass over `s`: the current line becomes the last line when it
/// is not empty or follows a final newline, and the end of the text maps to
/// the end of the last line (line 0, column 0 when there is none).
pub open spec fn wrap_finish(s: Seq<char>, st: WrapState) -> LayoutView {
    let lines = if st.current.len() > 0 || ends_with_newline(s) {
        st.lines.push(st.current)
    } else {
        st.lines
    };
    let end = if lines.len() == 0 {
        (0usize, 0usize)
    } else {
        ((lines.len() - 1) as usize, lines.last().len() as usize)
    };
    LayoutView { lines, mapping: st.mapping.push(end) }
}

/// Multi-line layout of `s` under the overflow decisions `overflow`.
pub open spec fn wrapped_layout(s: Seq<char>, overflow: Seq<bool>) -> LayoutView {
    wrap_finish(s, wrap_prefix(s, overflow))
}

/// The characters of `s` other than newlines.
pub open spec fn visible_chars(s: Seq<char>) -> Seq<char> {
    s.filter(|c: char| c != '\n')
}

/// What the wrapping pass keeps true after each prefix.
pub open spec fn wrap_inv(s: Seq<char>, st: WrapState) -> bool {
    &&& st.lines.flatten_alt() + st.current == visible_chars(s)
    &&& st.mapping.len() == byte_len(s)
    &&& st.lines.len() + st.current.len() <= s.len()
    &&& forall|i: int|
        0 <= i < st.mapping.len() ==> #[trigger] st.mapping[i].0 <= st.lines.len() + (if st.current.len()
            > 0 {
            1int
        } else {
            0int
        })
}

pub proof fn lemma_wrap_step_inv(s: Seq<char>, st: WrapState, c: char, overflow: bool)
    requires
        wrap_inv(s, st),
        s.len() + 1 <= usize::MAX,
    ensures
        wrap_inv(s.push(c), wrap_step(st, c, overflow)),
{
    broadcast use Seq::lemma_filter_push;

    let p = |c: char| c != '\n';
    assert(s.push(c).drop_last() =~= s);
    s.lemma_filter_push(c, p);
    let w = wraps(st, c, overflow);
    let lines1 = if w { st.lines.push(st.current) } else { st.lines };
    let cur1 = if w { Seq::<char>::empty() } else { st.current };
    if w {
        assert(st.lines.push(st.current).drop_last() =~= st.lines);
        assert(lines1.flatten_alt() + cur1 =~= st.lines.flatten_alt() + st.current);
    }
    assert(lines1.flatten_alt() + cur1 == visible_chars(s));
    let nst = wrap_step(st, c, overflow);
    if c == '\n' {
        assert(lines1.push(cur1).drop_last() =~= lines1);
        assert(nst.lines.flatten_alt() + nst.current =~= lines1.flatten_alt() + cur1);
        assert(visible_chars(s.push(c)) == visible_chars(s));
    } else {
        assert(nst.lines.flatten_alt() + nst.current =~= (lines1.flatten_alt() + cur1).push(c));
        assert(visible_chars(s.push(c)) == visible_chars(s).push(c));
    }
}

/// The pass keeps `wrap_inv` on every prefix.
pub proof fn lemma_wrap_prefix_inv(s: Seq<char>, overflow: Seq<bool>)
    requires
        s.len() <= usize::MAX,
    ensures
        wrap_inv(s, wrap_prefix(s, overflow)),
    decreases s.len(),
{
    if s.len() == 0 {
        reveal(Seq::filter);
        assert(visible_chars(s) =~= Seq::<char>::empty());
        assert(Seq::<Seq<char>>::empty().flatten_alt() + Seq::<char>::empty() =~= Seq::<char>::empty());
    } else {
        let t = s.drop_last();
        lemma_wrap_prefix_inv(t, overflow);
        lemma_wrap_step_inv(t, wrap_prefix(t, overflow), s.last(), overflow[s.len() - 1]);
        assert(t.push(s.last()) =~= s);
    }
}

/// The wrapping pass only reads the decisions for the characters it has seen.
pub proof fn lemma_wrap_prefix_decisions(s: Seq<char>, a: Seq<bool>, b: Seq<bool>)
    requires
        s.len() <= a.len(),
        s.len() <= b.len(),
        forall|i: int| 0 <= i < s.len() ==> a[i] == b[i],
    ensures
        wrap_prefix(s, a) == wrap_prefix(s, b),
    decreases s.len(),
{
    if s.len() > 0 {
        lemma_wrap_prefix_decisions(s.drop_last(), a, b);
    }
}

/// Law: the lines of a multi-line layout, joined, are exactly the text with
/// its newlines removed; no character is lost or duplicated by wrapping.
pub proof fn law_wrapped_lines_hold_the_text(s: Seq<char>, overflow: Seq<bool>)
    requires
        s.len() <= usize::MAX,
    ensures
        wrapped_layout(s, overflow).lines.flatten() == visible_chars(s),
{
    lemma_wrap_prefix_inv(s, overflow);
    let st = wrap_prefix(s, overflow);
    let l = wrapped_layout(s, overflow).lines;
    if st.current.len() > 0 || ends_with_newline(s) {
        assert(st.lines.push(st.current).drop_last() =~= st.lines);
        assert(l.flatten_alt() == st.lines.flatten_alt() + st.current);
    } else {
        assert(st.lines.flatten_alt() + st.current =~= st.lines.flatten_alt());
    }
    l.lemma_flatten_and_flatten_alt_are_equivalent();
}

/// Law: a layout, single- or multi-line, maps every byte position of the
/// text, including the end, and each mapped line exists or is the one
/// just after the last.
pub proof fn law_layout_maps_every_position(s: Seq<char>, overflow: Seq<bool>)
    requires
        s.len() <= usize::MAX,
    ensures
        wrapped_layout(s, overflow).mapping.len() == byte_len(s) + 1,
        wrapped_layout(s, overflow).wf(),
        single_line_layout(s).mapping.len() == byte_len(s) + 1,
        single_line_layout(s).wf(),
{
    lemma_wrap_prefix_inv(s, overflow);
    let st = wrap_prefix(s, overflow);
    let lv = wrapped_layout(s, overflow);
    assert forall|i: int| 0 <= i < lv.mapping.len() implies #[trigger] lv.mapping[i].0 <= lv.lines.len() by {
        if i < st.mapping.len() {
            assert(lv.mapping[i] == st.mapping[i]);
        }
    }
}

/// Prefix step of the law below: with no newline and no overflow, the pass
/// keeps everything on one line.
proof fn lemma_unwrapped_prefix(s: Seq<char>, overflow: Seq<bool>, n: int)
    requires
        0 <= n <= s.len(),
        s.len() <= overflow.len(),
        s.len() <= usize::MAX,
        forall|i: int| 0 <= i < s.len() ==> s[i] != '\n' && !overflow[i],
    ensures
        wrap_prefix(s.take(n), overflow) == (WrapState {
            lines: Seq::empty(),
            current: s.take(n),
            mapping: Seq::new(offset(s, n), |b: int| (0usize, floor_index(s, b) as usize)),
        }),
    decreases n,
{
    if n == 0 {
        lemma_offset_end(s);
        assert(s.take(0) =~= Seq::<char>::empty());
        assert(Seq::new(offset(s, 0), |b: int| (0usize, floor_index(s, b) as usize)) =~= Seq::<(usize, usize)>::empty());
    } else {
        lemma_unwrapped_prefix(s, overflow, n - 1);
        let t = s.take(n);
        assert(t.drop_last() =~= s.take(n - 1));
        let c = s[n - 1];
        lemma_offset_step(s, n - 1);
        let prev = Seq::new(offset(s, n - 1), |b: int| (0usize, floor_index(s, b) as usize));
        let added = Seq::new(char_width(c), |i: int| (0usize, (n - 1) as usize));
        assert forall|b: int| offset(s, n - 1) <= b < offset(s, n) implies floor_index(s, b) == n - 1 by {
            lemma_floor_index_unique(s, b, n - 1);
        }
        assert(prev + added =~= Seq::new(offset(s, n), |b: int| (0usize, floor_index(s, b) as usize)));
        assert(s.take(n - 1).push(c) =~= t);
    }
}

/// Law: with no newline and no overflowing character, the multi-line layout
/// of a non-empty text is its single-line layout. (An empty text has no
/// line in multi-line mode and one empty line in single-line mode.)
pub proof fn law_unwrapped_text_is_single_line(s: Seq<char>, overflow: Seq<bool>)
    requires
        s.len() > 0,
        s.len() <= overflow.len(),
        s.len() <= usize::MAX,
        forall|i: int| 0 <= i < s.len() ==> s[i] != '\n' && !overflow[i],
    ensures
        wrapped_layout(s, overflow) == single_line_layout(s),
{
    lemma_unwrapped_prefix(s, overflow, s.len() as int);
    assert(s.take(s.len() as int) =~= s);
    lemma_offset_end(s);
    lemma_floor_index_of_offset(s, s.len() as int);
    let w = wrapped_layout(s, overflow);
    let sl = single_line_layout(s);
    assert(Seq::<Seq<char>>::empty().push(s) =~= seq![s]);
    assert(w.mapping =~= sl.mapping);
}

/// Each character other than a newline is mapped, at its first byte, to the
/// place where it is drawn: a line already finished, or the current line.
pub open spec fn chars_placed(s: Seq<char>, st: WrapState) -> bool {
    forall|j: int|
        0 <= j < s.len() && #[trigger] s[j] != '\n' ==> {
            let e = st.mapping[offset(s, j) as int];
            ||| (e.0 < st.lines.len() && e.1 < st.lines[e.0 as int].len() && st.lines[e.0 as int][e.1 as int]
                == s[j])
            ||| (e.0 == st.lines.len() && e.1 < st.current.len() && st.current[e.1 as int] == s[j])
        }
}

proof fn lemma_wrap_step_placed(s: Seq<char>, st: WrapState, c: char, overflow: bool)
    requires
        wrap_inv(s, st),
        chars_placed(s, st),
        s.len() + 1 <= usize::MAX,
    ensures
        chars_placed(s.push(c), wrap_step(st, c, overflow)),
{
    let t = s.push(c);
    let nst = wrap_step(st, c, overflow);
    let w = wraps(st, c, overflow);
    let lines1 = if w { st.lines.push(st.current) } else { st.lines };
    let cur1 = if w { Seq::<char>::empty() } else { st.current };
    lemma_wrap_step_inv(s, st, c, overflow);
    assert(t.drop_last() =~= s);
    assert forall|j: int| 0 <= j < t.len() && #[trigger] t[j] != '\n' implies {
        let e = nst.mapping[offset(t, j) as int];
        ||| (e.0 < nst.lines.len() && e.1 < nst.lines[e.0 as int].len() && nst.lines[e.0 as int][e.1 as int]
            == t[j])
        ||| (e.0 == nst.lines.len() && e.1 < nst.current.len() && nst.current[e.1 as int] == t[j])
    } by {
        lemma_offset_prefix(t, s.len() as int, j);
        assert(t.take(s.len() as int) =~= s);
        if j < s.len() {
            assert(t[j] == s[j]);
            lemma_offset_mono(s, j + 1, s.len() as int);
            lemma_offset_step(s, j);
            lemma_offset_end(s);
            lemma_width_bounds(s[j]);
            let e = st.mapping[offset(s, j) as int];
            assert(nst.mapping[offset(s, j) as int] == e);
        } else {
            lemma_offset_end(s);
            lemma_width_bounds(c);
            assert(nst.mapping[offset(s, s.len() as int) as int] == (lines1.len() as usize, cur1.len() as usize));
        }
    }
}

proof fn lemma_wrap_prefix_placed(s: Seq<char>, overflow: Seq<bool>)
    requires
        s.len() <= usize::MAX,
    ensures
        chars_placed(s, wrap_prefix(s, overflow)),
    decreases s.len(),
{
    if s.len() > 0 {
        let t = s.drop_last();
        lemma_wrap_prefix_placed(t, overflow);
        lemma_wrap_prefix_inv(t, overflow);
        lemma_wrap_step_placed(t, wrap_prefix(t, overflow), s.last(), overflow[s.len() - 1]);
        assert(t.push(s.last()) =~= s);
    }
}

/// Law: in a multi-line layout, the first byte of every character other than
/// a newline maps to a (line, column) of the layout where that very
/// character is drawn; the cursor drawn there sits before it.
pub proof fn law_cursor_positions_match_drawn_chars(s: Seq<char>, overflow: Seq<bool>, j: int)
    requires
        s.len() <= usize::MAX,
        0 <= j < s.len(),
        s[j] != '\n',
    ensures
        ({
            let lv = wrapped_layout(s, overflow);
            let e = lv.mapping[offset(s, j) as int];
            &&& e.0 < lv.lines.len()
            &&& e.1 < lv.lines[e.0 as int].len()
            &&& lv.lines[e.0 as int][e.1 as int] == s[j]
        }),
{
    lemma_wrap_prefix_placed(s, overflow);
    lemma_wrap_prefix_inv(s, overflow);
    let st = wrap_prefix(s, overflow);
    lemma_offset_mono(s, j + 1, s.len() as int);
    lemma_offset_step(s, j);
    lemma_offset_end(s);
    lemma_width_bounds(s[j]);
    let e = st.mapping[offset(s, j) as int];
    assert(s[j] != '\n');
    let lv = wrapped_layout(s, overflow);
    assert(lv.mapping[offset(s, j) as int] == e);
}

/// Each newline is mapped to the end of the line it closes.
pub open spec fn newlines_placed(s: Seq<char>, st: WrapState) -> bool {
    forall|j: int|
        0 <= j < s.len() && #[trigger] s[j] == '\n' ==> {
            let e = st.mapping[offset(s, j) as int];
            e.0 < st.lines.len() && e.1 == st.lines[e.0 as int].len()
        }
}

proof fn lemma_wrap_prefix_newlines(s: Seq<char>, overflow: Seq<bool>)
    requires
        s.len() <= usize::MAX,
    ensures
        newlines_placed(s, wrap_prefix(s, overflow)),
    decreases s.len(),
{
    if s.len() > 0 {
        let t = s.drop_last();
        lemma_wrap_prefix_newlines(t, overflow);
        lemma_wrap_prefix_inv(t, overflow);
        let st = wrap_prefix(t, overflow);
        let c = s.last();
        let o = overflow[s.len() - 1];
        let nst = wrap_step(st, c, o);
        let w = wraps(st, c, o);
        let lines1 = if w { st.lines.push(st.current) } else { st.lines };
        let cur1 = if w { Seq::<char>::empty() } else { st.current };
        assert(t.push(c) =~= s);
        assert(nst == wrap_prefix(s, overflow));
        assert forall|j: int| 0 <= j < s.len() && #[trigger] s[j] == '\n' implies {
            let e = nst.mapping[offset(s, j) as int];
            e.0 < nst.lines.len() && e.1 == nst.lines[e.0 as int].len()
        } by {
            lemma_offset_prefix(s, t.len() as int, j);
            assert(s.take(t.len() as int) =~= t);
            if j < t.len() {
                assert(s[j] == t[j]);
                lemma_offset_mono(t, j + 1, t.len() as int);
                lemma_offset_step(t, j);
                lemma_offset_end(t);
                lemma_width_bounds(t[j]);
                let e = st.mapping[offset(t, j) as int];
                assert(nst.mapping[offset(t, j) as int] == e);
                assert(nst.lines[e.0 as int] == st.lines[e.0 as int]);
            } else {
                lemma_offset_end(t);
                assert(nst.mapping[offset(t, t.len() as int) as int] == (lines1.len() as usize, cur1.len() as usize));
            }
        }
    }
}

/// Law: in a multi-line layout, the byte of each newline maps to the end of
/// the line that the newline closes, so a cursor just before a newline is
/// drawn after the last character of its line.
pub proof fn law_newline_maps_to_end_of_its_line(s: Seq<char>, overflow: Seq<bool>, j: int)
    requires
        s.len() <= usize::MAX,
        0 <= j < s.len(),
        s[j] == '\n',
    ensures
        ({
            let lv = wrapped_layout(s, overflow);
            let e = lv.mapping[offset(s, j) as int];
            &&& e.0 < lv.lines.len()
            &&& e.1 == lv.lines[e.0 as int].len()
        }),
{
    lemma_wrap_prefix_newlines(s, overflow);
    lemma_wrap_prefix_inv(s, overflow);
    let st = wrap_prefix(s, overflow);
    lemma_offset_mono(s, j + 1, s.len() as int);
    lemma_offset_step(s, j);
    lemma_offset_end(s);
    let e = st.mapping[offset(s, j) as int];
    assert(s[j] == '\n');
    let lv = wrapped_layout(s, overflow);
    assert(lv.mapping[offset(s, j) as int] == e);
    assert(lv.lines[e.0 as int] == st.lines[e.0 as int]);
}

/// Law: a text ending with a newline ends with an empty line, and its end
/// maps to the start of that line.
pub proof fn law_trailing_newline_opens_a_line(s: Seq<char>, overflow: Seq<bool>)
    requires
        s.len() <= usize::MAX,
        ends_with_newline(s),
    ensures
        ({
            let lv = wrapped_layout(s, overflow);
            &&& lv.lines.len() > 0
            &&& lv.lines.last().len() == 0
            &&& lv.mapping.last() == ((lv.lines.len() - 1) as usize, 0usize)
        }),
{
    let t = s.drop_last();
    lemma_wrap_prefix_inv(s, overflow);
    lemma_wrap_prefix_inv(t, overflow);
    assert(t.push(s.last()) =~= s);
}

} // verus!

verus! {

/// A computed layout: display lines and the byte-position map.
pub struct TextLayout {
    lines: Vec<Vec<char>>,
    mapping: Vec<(usize, usize)>,
}

impl View for TextLayout {
    type V = LayoutView;

    closed spec fn view(&self) -> LayoutView {
        LayoutView { lines: self.lines@.map_values(|l: Vec<char>| l@), mapping: self.mapping@ }
    }
}

impl TextLayout {
    #[verifier::type_invariant]
    spec fn inv(self) -> bool {
        self@.wf()
    }

    /// Number of display lines.
    pub fn line_count(&self) -> (n: usize)
        ensures
            n == self@.lines.len(),
    {
        self.lines.len()
    }

    /// The characters of display line `i`.
    pub fn line(&self, i: usize) -> (l: &Vec<char>)
        requires
            i < self@.lines.len(),
        ensures
            l@ == self@.lines[i as int],
    {
        &self.lines[i]
    }

    /// Number of characters on display line `i`.
    pub fn line_len(&self, i: usize) -> (n: usize)
        requires
            i < self@.lines.len(),
        ensures
            n == self@.lines[i as int].len(),
    {
        self.lines[i].len()
    }

    /// The (line, column) that byte position `b` maps to.
    pub fn position_of(&self, b: usize) -> (p: (usize, usize))
        requires
            b < self@.mapping.len(),
        ensures
            p == self@.mapping[b as int],
    {
        self.mapping[b]
    }

    /// Number of mapped byte positions.
    pub fn mapping_len(&self) -> (n: usize)
        ensures
            n == self@.mapping.len(),
    {
        self.mapping.len()
    }

    /// Where the cursor at byte `b` is drawn.
    pub fn position_at(&self, b: usize) -> (p: (usize, usize))
        ensures
            p == layout_position(self@, b as int),
            p.0 <= self@.lines.len(),
    {
        proof {
            use_type_invariant(self);
        }
        if b < self.mapping.len() {
            self.mapping[b]
        } else if self.lines.len() == 0 {
            (0, 0)
        } else {
            let n = self.lines.len();
            (n - 1, self.lines[n - 1].len())
        }
    }

    /// The last byte position mapped to (`line`, `col`), if any.
    pub fn find_position(&self, line: usize, col: usize) -> (r: Option<usize>)
        ensures
            r == (if last_match(self@.mapping, (line, col)) >= 0 {
                Some(last_match(self@.mapping, (line, col)) as usize)
            } else {
                None
            }),
            r matches Some(b) ==> b as int == last_match(self@.mapping, (line, col)),
    {
        let mut found: Option<usize> = None;
        let mut i: usize = 0;
        while i < self.mapping.len()
            invariant
                i <= self.mapping@.len(),
                found == (if last_match(self@.mapping.take(i as int), (line, col)) >= 0 {
                    Some(last_match(self@.mapping.take(i as int), (line, col)) as usize)
                } else {
                    None
                }),
            decreases self.mapping.len() - i,
        {
            let e = self.mapping[i];
            proof {
                assert(self@.mapping.take(i + 1).drop_last() =~= self@.mapping.take(i as int));
                lemma_last_match_bounds(self@.mapping.take(i as int), (line, col));
            }
            if e.0 == line && e.1 == col {
                found = Some(i);
            }
            i = i + 1;
        }
        proof {
            assert(self@.mapping.take(self.mapping.len() as int) =~= self@.mapping);
            lemma_last_match_bounds(self@.mapping, (line, col));
        }
        found
    }

    /// `raw` limited to the index of the last line (0 when there is none).
    pub fn clamp_line(&self, raw: usize) -> (l: usize)
        ensures
            l == clamped_line(self@, raw as nat),
    {
        let last = if self.lines.len() == 0 {
            0
        } else {
            self.lines.len() - 1
        };
        if raw < last {
            raw
        } else {
            last
        }
    }
}

/// Appends `n` copies of `entry` to `m`.
fn push_copies(m: &mut Vec<(usize, usize)>, entry: (usize, usize), n: usize)
    ensures
        final(m)@ == old(m)@ + Seq::new(n as nat, |i: int| entry),
{
    let mut j: usize = 0;
    while j < n
        invariant
            j <= n,
            m@ =~= old(m)@ + Seq::new(j as nat, |i: int| entry),
        decreases n - j,
    {
        m.push(entry);
        j = j + 1;
    }
}

/// A copy of `v`.
pub fn copy_chars(v: &Vec<char>) -> (r: Vec<char>)
    ensures
        r@ == v@,
{
    let mut r: Vec<char> = Vec::new();
    let mut i: usize = 0;
    while i < v.len()
        invariant
            i <= v.len(),
            r@ == v@.take(i as int),
        decreases v.len() - i,
    {
        r.push(v[i]);
        proof {
            assert(v@.take(i + 1) =~= v@.take(i as int).push(v@[i as int]));
        }
        i = i + 1;
    }
    proof {
        assert(v@.take(v.len() as int) =~= v@);
    }
    r
}

/// The single-line layout of `s`.
pub fn layout_single_line(s: &Vec<char>) -> (l: TextLayout)
    requires
        byte_len(s@) < usize::MAX,
    ensures
        l@ == single_line_layout(s@),
{
    let mut mapping: Vec<(usize, usize)> = Vec::new();
    let mut k: usize = 0;
    let mut off: usize = 0;
    proof {
        lemma_offset_end(s@);
    }
    while k < s.len()
        invariant
            k <= s.len(),
            off == offset(s@, k as int),
            byte_len(s@) < usize::MAX,
            mapping@ =~= Seq::new(off as nat, |b: int| (0usize, floor_index(s@, b) as usize)),
        decreases s.len() - k,
    {
        proof {
            lemma_offset_step(s@, k as int);
            lemma_offset_mono(s@, k + 1, s.len() as int);
            lemma_offset_end(s@);
        }
        let w = utf8_width(s[k]);
        let mut j: usize = 0;
        while j < w
            invariant
                k < s.len(),
                j <= w,
                w == char_width(s@[k as int]),
                off == offset(s@, k as int),
                off + w == offset(s@, k + 1),
                mapping@ =~= Seq::new((off + j) as nat, |b: int| (0usize, floor_index(s@, b) as usize)),
            decreases w - j,
        {
            proof {
                lemma_floor_index_unique(s@, (off + j) as int, k as int);
            }
            mapping.push((0, k));
            j = j + 1;
        }
        off = off + w;
        k = k + 1;
    }
    proof {
        lemma_offset_end(s@);
        lemma_floor_index_unique(s@, off as int, k as int);
    }
    mapping.push((0, k));
    let mut lines: Vec<Vec<char>> = Vec::new();
    lines.push(copy_chars(s));
    proof {
        assert(lines@.map_values(|l: Vec<char>| l@) =~= seq![s@]);
        assert(mapping@ =~= single_line_layout(s@).mapping);
        law_layout_maps_every_position(s@, Seq::empty());
    }
    TextLayout { lines, mapping }
}

} // verus!

verus! {

/// Runs the wrapping pass one character at a time. The caller measures each
/// character, tells `step` whether it overflows the current line, and keeps
/// the running line width as `step` directs.
pub struct LayoutBuilder {
    text: Vec<char>,
    multiline: bool,
    pos: usize,
    lines: Vec<Vec<char>>,
    current: Vec<char>,
    mapping: Vec<(usize, usize)>,
    decisions: Ghost<Seq<bool>>,
}

impl LayoutBuilder {
    /// The text being laid out.
    pub closed spec fn source(&self) -> Seq<char> {
        self.text@
    }

    /// Whether lines wrap and break at newlines.
    pub closed spec fn is_multiline(&self) -> bool {
        self.multiline
    }

    /// Number of characters already laid out.
    pub closed spec fn position(&self) -> nat {
        self.pos as nat
    }

    /// The overflow decisions received so far, one per laid-out character.
    pub closed spec fn decisions(&self) -> Seq<bool> {
        self.decisions@
    }

    /// The characters on the line being filled.
    pub closed spec fn current_line(&self) -> Seq<char> {
        self.current@
    }

    spec fn state(&self) -> WrapState {
        WrapState {
            lines: self.lines@.map_values(|l: Vec<char>| l@),
            current: self.current@,
            mapping: self.mapping@,
        }
    }

    /// The builder's internal state matches the wrapping pass so far.
    pub closed spec fn wf(&self) -> bool {
        &&& self.pos <= self.text.len()
        &&& self.multiline ==> self.decisions@.len() == self.pos
        &&& byte_len(self.text@) < usize::MAX
        &&& self.multiline ==> self.state() == wrap_prefix(self.text@.take(self.pos as int), self.decisions@)
        &&& !self.multiline ==> self.pos == self.text.len()
    }

    /// A builder for `text`; in single-line mode nothing is left to step.
    pub fn new(text: &Vec<char>, multiline: bool) -> (b: LayoutBuilder)
        requires
            byte_len(text@) < usize::MAX,
        ensures
            b.wf(),
            b.source() == text@,
            b.is_multiline() == multiline,
            b.position() == (if multiline { 0 } else { text@.len() }),
            b.current_line().len() == 0,
            b.decisions() == Seq::<bool>::empty(),
    {
        let t = copy_chars(text);
        let pos = if multiline { 0 } else { t.len() };
        let b = LayoutBuilder {
            text: t,
            multiline,
            pos,
            lines: Vec::new(),
            current: Vec::new(),
            mapping: Vec::new(),
            decisions: Ghost(Seq::empty()),
        };
        proof {
            assert(b.lines@.map_values(|l: Vec<char>| l@) =~= Seq::<Seq<char>>::empty());
            assert(b.state() =~= empty_wrap_state());
        }
        b
    }

    /// The next character to lay out, if any.
    pub fn next_char(&self) -> (c: Option<char>)
        requires
            self.wf(),
        ensures
            c == (if self.position() < self.source().len() {
                Some(self.source()[self.position() as int])
            } else {
                None
            }),
    {
        if self.pos < self.text.len() {
            Some(self.text[self.pos])
        } else {
            None
        }
    }

    /// Lays out the next character, which overflows the current line when
    /// `overflow`. Returns `(reset, add)`: whether the running line width
    /// restarts from zero, then whether the character's width is added to it.
    pub fn step(&mut self, overflow: bool) -> (r: (bool, bool))
        requires
            old(self).wf(),
            old(self).position() < old(self).source().len(),
        ensures
            final(self).wf(),
            final(self).source() == old(self).source(),
            final(self).is_multiline() == old(self).is_multiline(),
            final(self).position() == old(self).position() + 1,
            final(self).decisions() == old(self).decisions().push(overflow),
            r.0 == (old(self).source()[old(self).position() as int] == '\n' || (overflow
                && old(self).current_line().len() > 0)),
            r.1 == (old(self).source()[old(self).position() as int] != '\n'),
    {
        let ghost old_state = self.state();
        let ghost s = self.text@;
        let ghost p = self.pos as int;
        let c = self.text[self.pos];
        let w = c != '\n' && overflow && self.current.len() > 0;
        proof {
            assert(self.multiline);
            assert(old_state == wrap_prefix(s.take(p), self.decisions@));
            lemma_wrap_prefix_inv(s.take(p), self.decisions@);
        }
        if w {
            let mut line: Vec<char> = Vec::new();
            std::mem::swap(&mut line, &mut self.current);
            self.lines.push(line);
        }
        let ghost lines1 = self.lines@.map_values(|l: Vec<char>| l@);
        let ghost cur1 = self.current@;
        proof {
            assert(lines1 =~= (if w { old_state.lines.push(old_state.current) } else { old_state.lines }));
        }
        if c == '\n' {
            let entry = (self.lines.len(), self.current.len());
            self.mapping.push(entry);
            let mut line: Vec<char> = Vec::new();
            std::mem::swap(&mut line, &mut self.current);
            self.lines.push(line);
            proof {
                assert(self.lines@.map_values(|l: Vec<char>| l@) =~= lines1.push(cur1));
            }
        } else {
            proof {
                lemma_width_bounds(c);
            }
            let cw = utf8_width(c);
            let entry = (self.lines.len(), self.current.len());
            push_copies(&mut self.mapping, entry, cw);
            self.current.push(c);
            proof {
                assert(self.lines@.map_values(|l: Vec<char>| l@) =~= lines1);
                assert(Seq::new(cw as nat, |i: int| entry) =~= Seq::new(
                    char_width(c),
                    |i: int| (lines1.len() as usize, cur1.len() as usize),
                ));
            }
        }
        self.pos = self.pos + 1;
        self.decisions = Ghost(self.decisions@.push(overflow));
        proof {
            let d = self.decisions@;
            let t = s.take(p + 1);
            assert(t.drop_last() =~= s.take(p));
            lemma_wrap_prefix_decisions(s.take(p), old(self).decisions@, d);
            assert(self.state() =~= wrap_step(old_state, c, overflow));
        }
        (w || c == '\n', c != '\n')
    }

    /// The finished layout: the wrapped layout under the decisions received in
    /// multi-line mode, the single-line layout otherwise.
    pub fn finish(self) -> (l: TextLayout)
        requires
            self.wf(),
            self.position() == self.source().len(),
        ensures
            l@ == (if self.is_multiline() {
                wrapped_layout(self.source(), self.decisions())
            } else {
                single_line_layout(self.source())
            }),
    {
        if !self.multiline {
            return layout_single_line(&self.text);
        }
        let ghost s = self.text@;
        let ghost st = self.state();
        proof {
            assert(s.take(s.len() as int) =~= s);
            lemma_wrap_prefix_inv(s, self.decisions@);
            law_layout_maps_every_position(s, self.decisions@);
        }
        let mut lines = self.lines;
        let current = self.current;
        let mut mapping = self.mapping;
        let n_chars = self.text.len();
        if current.len() > 0 || (n_chars > 0 && self.text[n_chars - 1] == '\n') {
            lines.push(current);
        }
        let n = lines.len();
        let end = if n == 0 {
            (0, 0)
        } else {
            (n - 1, lines[n - 1].len())
        };
        mapping.push(end);
        let l = TextLayout { lines, mapping };
        proof {
            let fin = wrap_finish(s, st);
            assert(l@.lines =~= fin.lines);
            assert(l@.mapping =~= fin.mapping);
        }
        l
    }
}

} // verus!
