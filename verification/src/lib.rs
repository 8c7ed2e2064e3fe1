//! Editing model of a single- or multi-line text input box: the text, a
//! byte-indexed cursor, character limits and whitelists, keyboard editing and
//! the wrapped-line layout used for drawing and vertical navigation.

pub mod utf8;
pub mod chars;
pub mod layout;
pub mod text_input;
pub mod laws;
