use text_input::layout::{LayoutBuilder, TextLayout};
use text_input::text_input::{EditKey, KeyAction, KeyPresses, TextInput};

fn no_keys() -> KeyPresses {
    KeyPresses { delete: false, backspace: false, left: false, right: false, up: false, down: false }
}

fn finish_with(mut b: LayoutBuilder, overflow: &[bool]) -> TextLayout {
    let mut i = 0;
    while b.next_char().is_some() {
        b.step(overflow.get(i).copied().unwrap_or(false));
        i += 1;
    }
    b.finish()
}

fn layout(t: &TextInput) -> TextLayout {
    finish_with(t.layout_builder(), &[])
}

fn type_str(t: &mut TextInput, s: &str) {
    for c in s.chars() {
        t.type_char(c);
    }
}

#[test]
fn new_input_is_empty_enabled_and_inactive() {
    let t = TextInput::new();
    assert_eq!(t.get_text(), "");
    assert_eq!(t.get_cursor_index(), 0);
    assert!(t.is_enabled());
    assert!(!t.is_active());
    assert!(!t.is_multiline());
    assert_eq!(t.get_prompt(), None);
    assert_eq!(t.get_allowed_chars(), None);
}

#[test]
fn set_text_replaces_and_keeps_cursor_valid() {
    let mut t = TextInput::new();
    t.set_text("Hello World");
    assert_eq!(t.get_text(), "Hello World");
    assert_eq!(t.get_cursor_index(), 0);
    t.set_cursor_index(11);
    t.set_text("Hi");
    assert_eq!(t.get_text(), "Hi");
    assert_eq!(t.get_cursor_index(), 2);
}

#[test]
fn set_text_moves_cursor_back_to_char_boundary() {
    let mut t = TextInput::new();
    t.set_text("aaaaa");
    t.set_cursor_index(3);
    t.set_text("aé");
    // "aé" is 3 bytes; byte 3 is the end.
    assert_eq!(t.get_cursor_index(), 3);
    // byte 2 lies inside 'é' (bytes 1..3), so the cursor goes back to 1.
    t.set_cursor_index(2);
    assert_eq!(t.get_cursor_index(), 1);
    t.set_text("aéb");
    assert_eq!(t.get_cursor_index(), 1);
}

#[test]
fn set_cursor_index_ignores_positions_past_the_end() {
    let mut t = TextInput::new();
    t.set_text("abc");
    t.set_cursor_index(2);
    assert_eq!(t.get_cursor_index(), 2);
    t.set_cursor_index(4);
    assert_eq!(t.get_cursor_index(), 2);
    t.set_cursor_index(3);
    assert_eq!(t.get_cursor_index(), 3);
}

#[test]
fn typing_inserts_at_cursor_and_advances_by_utf8_width() {
    let mut t = TextInput::new();
    type_str(&mut t, "ab");
    t.set_cursor_index(1);
    t.type_char('é');
    assert_eq!(t.get_text(), "aéb");
    assert_eq!(t.get_cursor_index(), 3);
    t.type_char('😀');
    assert_eq!(t.get_text(), "aé😀b");
    assert_eq!(t.get_cursor_index(), 7);
    t.type_char('中');
    assert_eq!(t.get_cursor_index(), 10);
    assert_eq!(t.text_len(), 11);
    assert_eq!(t.char_count(), 5);
}

#[test]
fn control_characters_are_not_typed() {
    let mut t = TextInput::new();
    t.type_char('\n');
    t.type_char('\t');
    t.type_char('\u{7f}');
    t.type_char('\u{9f}');
    assert_eq!(t.get_text(), "");
    t.type_char('\u{a0}');
    assert_eq!(t.get_text(), "\u{a0}");
}

#[test]
fn max_chars_limits_typing_but_keeps_existing_text() {
    let mut t = TextInput::new();
    type_str(&mut t, "abcdef");
    t.set_max_chars(3);
    assert_eq!(t.get_text(), "abcdef");
    t.type_char('x');
    assert_eq!(t.get_text(), "abcdef");
    t.clear_max_chars();
    t.type_char('x');
    assert_eq!(t.get_text(), "abcdefx");
    let mut u = TextInput::new();
    u.set_max_chars(2);
    type_str(&mut u, "hello");
    assert_eq!(u.get_text(), "he");
}

#[test]
fn set_text_applies_limit_and_whitelist() {
    let mut t = TextInput::new();
    t.set_max_chars(4);
    t.set_text("abcdefg");
    assert_eq!(t.get_text(), "abcd");
    t.set_allowed_chars("0123456789");
    assert_eq!(t.get_text(), "");
    t.set_text("a1b2c3d4e5");
    assert_eq!(t.get_text(), "1234");
    assert_eq!(t.get_allowed_chars(), Some("0123456789"));
}

#[test]
fn max_chars_zero_allows_no_text() {
    let mut t = TextInput::new();
    t.set_max_chars(0);
    t.set_text("abc");
    assert_eq!(t.get_text(), "");
    t.clear_max_chars();
    t.set_text("abc");
    t.set_max_chars(0);
    assert_eq!(t.get_text(), "abc");
    t.set_allowed_chars("b");
    assert_eq!(t.get_text(), "");
    t.set_text("ab");
    assert_eq!(t.get_text(), "");
    t.type_char('b');
    assert_eq!(t.get_text(), "");
}

#[test]
fn whitelist_filters_typing_and_existing_text() {
    let mut t = TextInput::new();
    type_str(&mut t, "a1b2");
    t.set_cursor_index(4);
    t.set_allowed_chars("0123456789");
    assert_eq!(t.get_text(), "12");
    assert_eq!(t.get_cursor_index(), 2);
    t.type_char('x');
    t.type_char('7');
    assert_eq!(t.get_text(), "127");
    assert!(t.is_char_allowed('5'));
    assert!(!t.is_char_allowed('x'));
    t.clear_allowed_chars();
    t.type_char('x');
    assert_eq!(t.get_text(), "127x");
}

#[test]
fn newline_passes_constraints_only_in_multiline_mode() {
    let mut t = TextInput::new();
    t.set_allowed_chars("ab");
    t.set_text("a\nb");
    assert_eq!(t.get_text(), "ab");
    t.set_multiline(true);
    t.set_text("a\nb");
    assert_eq!(t.get_text(), "a\nb");
    assert_eq!(t.apply_text_constraints("a\nc\nb"), "a\n\nb");
    assert!(t.can_insert_char('\n'));
    assert!(!t.can_insert_char('c'));
}

#[test]
fn enter_inserts_newline_only_in_multiline_mode() {
    let mut t = TextInput::new();
    type_str(&mut t, "ab");
    t.set_cursor_index(1);
    t.press_enter();
    assert_eq!(t.get_text(), "ab");
    t.set_multiline(true);
    t.press_enter();
    assert_eq!(t.get_text(), "a\nb");
    assert_eq!(t.get_cursor_index(), 2);
    t.set_max_chars(3);
    t.press_enter();
    assert_eq!(t.get_text(), "a\nb");
}

#[test]
fn delete_backspace_left_right() {
    let mut t = TextInput::new();
    t.set_text("aé😀");
    t.set_cursor_index(3);
    let l = layout(&t);
    let mut k = no_keys();
    k.left = true;
    assert_eq!(t.handle_key_presses(k, &l), KeyAction::Pressed(EditKey::Left));
    assert_eq!(t.get_cursor_index(), 1);
    let mut k = no_keys();
    k.right = true;
    assert_eq!(t.handle_key_presses(k, &l), KeyAction::Pressed(EditKey::Right));
    assert_eq!(t.get_cursor_index(), 3);
    let mut k = no_keys();
    k.delete = true;
    assert_eq!(t.handle_key_presses(k, &l), KeyAction::Pressed(EditKey::Delete));
    assert_eq!(t.get_text(), "aé");
    assert_eq!(t.get_cursor_index(), 3);
    let mut k = no_keys();
    k.delete = true;
    assert_eq!(t.handle_key_presses(k, &l), KeyAction::Ignored);
    let mut k = no_keys();
    k.backspace = true;
    assert_eq!(t.handle_key_presses(k, &l), KeyAction::Pressed(EditKey::Backspace));
    assert_eq!(t.get_text(), "a");
    assert_eq!(t.get_cursor_index(), 1);
    assert_eq!(t.last_key(), Some(EditKey::Backspace));
    t.release_key();
    assert_eq!(t.last_key(), None);
}

#[test]
fn delete_takes_precedence_over_other_keys() {
    let mut t = TextInput::new();
    t.set_text("abc");
    t.set_cursor_index(1);
    let l = layout(&t);
    let k = KeyPresses { delete: true, backspace: true, left: true, right: true, up: false, down: false };
    assert_eq!(t.handle_key_presses(k, &l), KeyAction::Pressed(EditKey::Delete));
    assert_eq!(t.get_text(), "ac");
    assert_eq!(t.get_cursor_index(), 1);
}

#[test]
fn keys_that_cannot_act_fall_through() {
    let mut t = TextInput::new();
    t.set_text("ab");
    let l = layout(&t);
    // At the start, Backspace and Left cannot act; Right can.
    let k = KeyPresses { delete: false, backspace: true, left: true, right: true, up: false, down: false };
    assert_eq!(t.handle_key_presses(k, &l), KeyAction::Pressed(EditKey::Right));
    assert_eq!(t.get_cursor_index(), 1);
    // Up/Down do nothing in single-line mode.
    let mut k = no_keys();
    k.up = true;
    assert_eq!(t.handle_key_presses(k, &l), KeyAction::Ignored);
}

#[test]
fn repeated_keys_act_like_presses() {
    let mut t = TextInput::new();
    t.set_text("héllo");
    t.set_cursor_index(6);
    t.repeat_key(EditKey::Left);
    assert_eq!(t.get_cursor_index(), 5);
    t.repeat_key(EditKey::Left);
    t.repeat_key(EditKey::Left);
    assert_eq!(t.get_cursor_index(), 3);
    t.repeat_key(EditKey::Left);
    assert_eq!(t.get_cursor_index(), 1);
    t.repeat_key(EditKey::Delete);
    assert_eq!(t.get_text(), "hllo");
    t.repeat_key(EditKey::Backspace);
    assert_eq!(t.get_text(), "llo");
    assert_eq!(t.get_cursor_index(), 0);
    t.repeat_key(EditKey::Backspace);
    t.repeat_key(EditKey::Left);
    assert_eq!(t.get_text(), "llo");
    t.repeat_key(EditKey::Right);
    assert_eq!(t.get_cursor_index(), 1);
}

#[test]
fn typing_then_backspace_restores_text_and_cursor() {
    let mut t = TextInput::new();
    t.set_text("añb");
    t.set_cursor_index(3);
    let before = (t.get_text(), t.get_cursor_index());
    t.type_char('€');
    assert_eq!(t.get_text(), "añ€b");
    t.repeat_key(EditKey::Backspace);
    assert_eq!((t.get_text(), t.get_cursor_index()), before);
}

#[test]
fn right_then_left_restores_cursor() {
    let mut t = TextInput::new();
    t.set_text("x😀y");
    t.set_cursor_index(1);
    t.repeat_key(EditKey::Right);
    assert_eq!(t.get_cursor_index(), 5);
    t.repeat_key(EditKey::Left);
    assert_eq!(t.get_cursor_index(), 1);
}

#[test]
fn cursor_boundary_and_chars_before_cursor() {
    let mut t = TextInput::new();
    t.set_text("aéb");
    t.set_cursor_index(2);
    assert_eq!(t.get_cursor_index(), 1);
    t.ensure_cursor_validity();
    assert_eq!(t.get_cursor_index(), 1);
    assert_eq!(t.chars_before_cursor(), vec!['a']);
    t.set_cursor_index(3);
    assert_eq!(t.chars_before_cursor(), vec!['a', 'é']);
}

#[test]
fn disabling_deactivates_and_blocks_updates() {
    let mut t = TextInput::new();
    t.set_active(true);
    assert!(t.begin_update());
    t.set_enabled(false);
    assert!(!t.is_active());
    t.set_active(true);
    assert!(!t.begin_update());
    assert!(!t.is_active());
    t.set_enabled(true);
    assert!(!t.is_active());
    assert!(t.is_enabled());
}

#[test]
fn prompt_is_stored() {
    let mut t = TextInput::new();
    t.set_prompt("Enter your name...");
    assert_eq!(t.get_prompt().map(|s| s.as_str()), Some("Enter your name..."));
}

#[test]
fn constraints_applied_twice_equal_once() {
    let mut t = TextInput::new();
    t.set_multiline(true);
    t.set_allowed_chars("abc");
    t.set_max_chars(3);
    let once = t.apply_text_constraints("xa\nbzcab");
    assert_eq!(once, "a\nb");
    assert_eq!(t.apply_text_constraints(&once), once);
    t.set_max_chars(0);
    let once = t.apply_text_constraints("zab");
    assert_eq!(once, "");
    let once = t.apply_text_constraints("abc");
    assert_eq!(once, "");
    assert_eq!(t.apply_text_constraints(&once), once);
}

#[test]
fn text_obeying_constraints_round_trips() {
    let mut t = TextInput::new();
    t.set_allowed_chars("0123456789");
    t.set_max_chars(4);
    t.set_text("2024");
    assert_eq!(t.get_text(), "2024");
}

#[test]
fn typing_keeps_text_within_constraints() {
    let mut t = TextInput::new();
    t.set_allowed_chars("0123456789");
    t.set_max_chars(4);
    type_str(&mut t, "1a9b9c9d9");
    assert_eq!(t.get_text(), "1999");
    assert!(t.get_text().len() <= 4);
}

#[test]
fn every_edit_leaves_cursor_on_a_boundary() {
    let mut t = TextInput::new();
    t.set_text("ñ€😀a");
    t.set_cursor_index(5);
    let keys = [EditKey::Left, EditKey::Right, EditKey::Delete, EditKey::Backspace, EditKey::Left, EditKey::Right];
    for k in keys {
        t.repeat_key(k);
        assert!(t.get_text().is_char_boundary(t.get_cursor_index()));
        assert!(t.get_cursor_index() <= t.text_len());
    }
    t.type_char('ß');
    assert!(t.get_text().is_char_boundary(t.get_cursor_index()));
    for i in 0..=t.text_len() + 1 {
        t.set_cursor_index(i);
        assert!(t.get_text().is_char_boundary(t.get_cursor_index()));
    }
}

#[test]
fn setting_the_stored_text_again_changes_nothing() {
    let mut t = TextInput::new();
    t.set_allowed_chars("abcé");
    t.set_max_chars(3);
    t.set_text("xaébc");
    assert_eq!(t.get_text(), "aéb");
    t.set_cursor_index(3);
    let stored = t.get_text();
    t.set_text(&stored);
    assert_eq!(t.get_text(), stored);
    assert_eq!(t.get_cursor_index(), 3);
}
