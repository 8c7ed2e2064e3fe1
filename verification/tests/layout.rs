use text_input::layout::{LayoutBuilder, TextLayout};
use text_input::text_input::{KeyAction, KeyPresses, TextInput};

fn finish_with(mut b: LayoutBuilder, overflow: &[bool]) -> TextLayout {
    let mut i = 0;
    while b.next_char().is_some() {
        b.step(overflow.get(i).copied().unwrap_or(false));
        i += 1;
    }
    b.finish()
}

fn lines(l: &TextLayout) -> Vec<String> {
    (0..l.line_count()).map(|i| l.line(i).iter().collect()).collect()
}

fn mapping(l: &TextLayout) -> Vec<(usize, usize)> {
    (0..l.mapping_len()).map(|b| l.position_of(b)).collect()
}

fn input(text: &str, multiline: bool) -> TextInput {
    let mut t = TextInput::new();
    t.set_multiline(multiline);
    t.set_text(text);
    t
}

#[test]
fn single_line_layout_maps_each_byte_to_its_char() {
    let t = input("aé", false);
    let l = finish_with(t.layout_builder(), &[]);
    assert_eq!(lines(&l), vec!["aé".to_string()]);
    assert_eq!(mapping(&l), vec![(0, 0), (0, 1), (0, 1), (0, 2)]);
}

#[test]
fn single_line_layout_of_empty_text_has_one_empty_line() {
    let t = input("", false);
    let l = finish_with(t.layout_builder(), &[]);
    assert_eq!(lines(&l), vec![String::new()]);
    assert_eq!(mapping(&l), vec![(0, 0)]);
}

#[test]
fn multiline_layout_breaks_at_newlines() {
    let t = input("ab\ncd", true);
    let l = finish_with(t.layout_builder(), &[]);
    assert_eq!(lines(&l), vec!["ab".to_string(), "cd".to_string()]);
    // The newline byte sits at the end of the line it closes.
    assert_eq!(mapping(&l), vec![(0, 0), (0, 1), (0, 2), (1, 0), (1, 1), (1, 2)]);
}

#[test]
fn multiline_layout_of_empty_text_has_no_line() {
    let t = input("", true);
    let l = finish_with(t.layout_builder(), &[]);
    assert_eq!(l.line_count(), 0);
    assert_eq!(mapping(&l), vec![(0, 0)]);
}

#[test]
fn trailing_newline_opens_an_empty_last_line() {
    let t = input("ab\n", true);
    let l = finish_with(t.layout_builder(), &[]);
    assert_eq!(lines(&l), vec!["ab".to_string(), String::new()]);
    assert_eq!(mapping(&l), vec![(0, 0), (0, 1), (0, 2), (1, 0)]);
    let t = input("\n\n", true);
    let l = finish_with(t.layout_builder(), &[]);
    assert_eq!(lines(&l), vec![String::new(), String::new(), String::new()]);
    assert_eq!(mapping(&l), vec![(0, 0), (1, 0), (2, 0)]);
}

#[test]
fn overflow_wraps_unless_line_is_empty() {
    let t = input("abcd", true);
    // 'a' overflows on an empty line (no wrap), 'c' overflows (wrap).
    let l = finish_with(t.layout_builder(), &[true, false, true, false]);
    assert_eq!(lines(&l), vec!["ab".to_string(), "cd".to_string()]);
    assert_eq!(mapping(&l), vec![(0, 0), (0, 1), (1, 0), (1, 1), (1, 2)]);
}

#[test]
fn builder_step_reports_width_updates() {
    let t = input("a\nb", true);
    let mut b = t.layout_builder();
    assert_eq!(b.next_char(), Some('a'));
    assert_eq!(b.step(true), (false, true));
    assert_eq!(b.next_char(), Some('\n'));
    assert_eq!(b.step(false), (true, false));
    assert_eq!(b.next_char(), Some('b'));
    assert_eq!(b.step(false), (false, true));
    assert_eq!(b.next_char(), None);
    let l = b.finish();
    assert_eq!(lines(&l), vec!["a".to_string(), "b".to_string()]);
}

#[test]
fn wrap_resets_line_width() {
    let t = input("ab", true);
    let mut b = t.layout_builder();
    b.step(false);
    assert_eq!(b.step(true), (true, true));
}

#[test]
fn unwrapped_multiline_equals_single_line() {
    let m = input("héllo", true);
    let s = input("héllo", false);
    let lm = finish_with(m.layout_builder(), &[]);
    let ls = finish_with(s.layout_builder(), &[]);
    assert_eq!(lines(&lm), lines(&ls));
    assert_eq!(mapping(&lm), mapping(&ls));
}

#[test]
fn drawn_chars_match_cursor_positions() {
    let text = "ab\ncé\nfg";
    let t = input(text, true);
    let l = finish_with(t.layout_builder(), &[false, false, false, false, true, false, false, true]);
    let ls = lines(&l);
    let mut byte = 0;
    for c in text.chars() {
        if c != '\n' {
            let (line, col) = l.position_of(byte);
            assert_eq!(ls[line].chars().nth(col), Some(c));
        }
        byte += c.len_utf8();
    }
    let joined: String = ls.concat();
    assert_eq!(joined, text.replace('\n', ""));
}

#[test]
fn click_places_cursor_at_last_matching_byte() {
    let mut t = input("ab\ncd", true);
    let l = finish_with(t.layout_builder(), &[]);
    t.place_cursor(&l, 1, 0);
    assert_eq!(t.get_cursor_index(), 3);
    t.place_cursor(&l, 0, 2);
    assert_eq!(t.get_cursor_index(), 2);
    assert_eq!(l.find_position(0, 2), Some(2));
    // An unmapped position sends the cursor to the end of the text.
    assert_eq!(l.find_position(0, 3), None);
    t.place_cursor(&l, 0, 3);
    assert_eq!(t.get_cursor_index(), 5);
    // The end of a line that wraps holds no byte of its own.
    let w = input("abcd", true);
    let lw = finish_with(w.layout_builder(), &[false, false, true, false]);
    assert_eq!(mapping(&lw), vec![(0, 0), (0, 1), (1, 0), (1, 1), (1, 2)]);
    assert_eq!(lw.find_position(0, 2), None);
    assert_eq!(l.clamp_line(7), 1);
    assert_eq!(l.clamp_line(0), 0);
}

#[test]
fn cursor_line_col_reads_the_mapping() {
    let mut t = input("ab\ncd", true);
    let l = finish_with(t.layout_builder(), &[]);
    t.set_cursor_index(4);
    assert_eq!(t.cursor_line_col(&l), (1, 1));
    assert_eq!(l.position_at(99), (1, 2));
}

#[test]
fn up_and_down_keep_the_preferred_column() {
    let mut t = input("abcd\nwxyz\nefgh", true);
    let l = finish_with(t.layout_builder(), &[]);
    t.set_cursor_index(1);
    let down = KeyPresses { delete: false, backspace: false, left: false, right: false, up: false, down: true };
    let up = KeyPresses { delete: false, backspace: false, left: false, right: false, up: true, down: false };
    assert_eq!(t.handle_key_presses(down, &l), KeyAction::Vertical);
    assert_eq!(t.get_cursor_index(), 6);
    assert_eq!(t.preferred_column(), Some(1));
    assert_eq!(t.handle_key_presses(down, &l), KeyAction::Vertical);
    assert_eq!(t.get_cursor_index(), 11);
    // On the last line Down stays put.
    assert_eq!(t.handle_key_presses(down, &l), KeyAction::Vertical);
    assert_eq!(t.get_cursor_index(), 11);
    assert_eq!(t.handle_key_presses(up, &l), KeyAction::Vertical);
    assert_eq!(t.handle_key_presses(up, &l), KeyAction::Vertical);
    assert_eq!(t.get_cursor_index(), 1);
    t.clear_preferred_column();
    assert_eq!(t.preferred_column(), None);
}

#[test]
fn moving_down_onto_a_shorter_line_stops_at_its_end() {
    // Column 3 on "x" is limited to 1: the end of "x", where its newline sits.
    let mut t = input("abcd\nx\nefgh", true);
    let l = finish_with(t.layout_builder(), &[]);
    t.set_cursor_index(3);
    let down = KeyPresses { delete: false, backspace: false, left: false, right: false, up: false, down: true };
    assert_eq!(t.handle_key_presses(down, &l), KeyAction::Vertical);
    assert_eq!(t.get_cursor_index(), 6);
    assert_eq!(t.preferred_column(), Some(3));
    assert_eq!(t.handle_key_presses(down, &l), KeyAction::Vertical);
    assert_eq!(t.get_cursor_index(), 10);
}

#[test]
fn up_from_the_end_of_the_second_line_reaches_the_end_of_the_first() {
    let mut t = input("ab\ncd", true);
    let l = finish_with(t.layout_builder(), &[]);
    t.set_cursor_index(5);
    let up = KeyPresses { delete: false, backspace: false, left: false, right: false, up: true, down: false };
    assert_eq!(t.handle_key_presses(up, &l), KeyAction::Vertical);
    assert_eq!(t.get_cursor_index(), 2);
    assert_eq!(t.get_text(), "ab\ncd");
}

#[test]
fn enter_at_the_end_puts_the_cursor_on_a_new_line() {
    let mut t = input("ab", true);
    t.set_cursor_index(2);
    t.press_enter();
    let l = finish_with(t.layout_builder(), &[]);
    assert_eq!(t.cursor_line_col(&l), (1, 0));
}

#[test]
fn left_or_right_with_vertical_forgets_column() {
    let mut t = input("ab\ncd", true);
    let l = finish_with(t.layout_builder(), &[]);
    let k = KeyPresses { delete: false, backspace: false, left: true, right: false, up: false, down: true };
    assert_eq!(t.handle_key_presses(k, &l), KeyAction::Vertical);
    assert_eq!(t.get_cursor_index(), 3);
    assert_eq!(t.preferred_column(), None);
}
