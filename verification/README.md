# stryke_terminal

A headless VT100 / VT220 / `TERM=linux` terminal emulator, verified with Verus.
Feed it the bytes a program writes; it keeps the screen model those bytes
render into: the character grid with per-cell colors and attributes, the
cursor, modes, scroll margins, tab stops, character sets, titles, device
replies and scrollback.

## Layout

- `src/streams.rs` — the escape / CSI / OSC parser, a state machine stepped
  one character at a time (`step`, `feed`), and the `Listener` trait.
- `src/decode.rs` — incremental UTF-8 decoding with U+FFFD replacement of
  maximal malformed subsequences, and Latin-1.
- `src/screens.rs` — the screen model (`ScreenM`) and every operation on it,
  including scrollback paging; `spec_event` gives the effect of one parsed
  event.
- `src/common.rs` — sessions (a screen and its parser) and the registry that
  hands out their ids.
- `src/graphics.rs`, `src/charsets.rs`, `src/wcwidth.rs`, `src/control.rs`,
  `src/escape.rs`, `src/modes.rs` — SGR tables, character sets, character
  widths and the constants of the protocol.
- `src/intmap.rs`, `src/textfmt.rs` — sorted integer maps and sets, and
  string building.
- `src/lib.rs` — escaping raw control bytes in JSON input.
- `app/lib.rs` — the C ABI: JSON arguments in, JSON out, a process-global
  registry.

Every function in `src/` has a contract over the abstract models; the laws
(`lemma_*` proof functions) state what holds across calls, such as that
feeding input in pieces ends in the same parser state as feeding it at once.
