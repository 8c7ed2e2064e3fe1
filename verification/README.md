# text_input

A verified editing model for a single- or multi-line text input box, with a
macroquad front end.

- `src/utf8.rs` — UTF-8 widths of characters, byte positions and character
  boundaries of a character sequence.
- `src/chars.rs` — conversions between strings and character vectors.
- `src/layout.rs` — display lines of the text and the map from byte
  positions to (line, column); line wrapping driven by per-character
  overflow decisions.
- `src/text_input.rs` — the input's state (`InputState`) and every action on
  it: setting text under a character limit and whitelist, typing, Enter,
  Delete, Backspace, Left/Right, Up/Down, clicks, key repeat.
- `src/laws.rs` — properties that span several actions.
- `app/` — the on-screen widget: geometry, colours, fonts, glyph
  measurement, timers, input polling and drawing.
