//! Simple control characters recognized by [`crate::streams::Stream`]. The set
//! is the one of `TERM=linux`, a superset of VT102.
use vstd::prelude::*;

verus! {

/// *Space*.
pub const SP: char = ' ';

/// *Null*: does nothing.
pub const NUL: char = '\u{0}';

/// *Bell*: beeps.
pub const BEL: char = '\u{7}';

/// *Backspace*: backspace one column, but not past the beginning of the line.
pub const BS: char = '\u{8}';

/// *Horizontal tab*: move cursor to the next tab stop, or to the end of the
/// line if there is no later tab stop.
pub const HT: char = '\u{9}';

/// *Linefeed*: give a line feed, and, if [`crate::modes::LNM`] (new line mode)
/// is set, also a carriage return.
pub const LF: char = '\n';

/// *Vertical tab*: same as [`LF`].
pub const VT: char = '\u{b}';

/// *Form feed*: same as [`LF`].
pub const FF: char = '\u{c}';

/// *Carriage return*: move cursor to left margin on current line.
pub const CR: char = '\r';

/// *Shift out*: activate G1 character set.
pub const SO: char = '\u{e}';

/// *Shift in*: activate G0 character set.
pub const SI: char = '\u{f}';

/// *Cancel*: interrupt escape sequence. If received during an escape or control
/// sequence, cancels the sequence and displays substitution character.
pub const CAN: char = '\u{18}';

/// *Substitute*: same as [`CAN`].
pub const SUB: char = '\u{1a}';

/// *Escape*: starts an escape sequence.
pub const ESC: char = '\u{1b}';

/// *Delete*: is ignored.
pub const DEL: char = '\u{7f}';

/// *Control sequence introducer* (8-bit form).
pub const CSI_C1: char = '\u{9b}';

/// *String terminator* (8-bit form).
pub const ST_C1: char = '\u{9c}';

/// *Operating system command* (8-bit form).
pub const OSC_C1: char = '\u{9d}';

} // verus!
