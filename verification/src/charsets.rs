//! The character sets `G0` and `G1` can designate, and their translation of
//! drawn characters.
use vstd::prelude::*;

verus! {

/// A character set a terminal can designate with `ESC ( c` / `ESC ) c`.
#[derive(Clone, Copy, Debug, PartialEq, Eq, Structural)]
pub enum Charset {
    /// Latin-1: every character stands for itself (code `B`).
    Latin1,
    /// The VT100 special graphics set (code `0`): `_` through `~` become line
    /// drawing and symbol characters.
    Vt100Graphics,
}

/// The character set designated by a code, if any.
pub open spec fn spec_charset_for(code: char) -> Option<Charset> {
    if code == 'B' {
        Some(Charset::Latin1)
    } else if code == '0' {
        Some(Charset::Vt100Graphics)
    } else {
        None
    }
}

/// The character set designated by a code, if any.
pub fn maps(code: char) -> (r: Option<Charset>)
    ensures
        r == spec_charset_for(code),
{
    if code == 'B' {
        Some(Charset::Latin1)
    } else if code == '0' {
        Some(Charset::Vt100Graphics)
    } else {
        None
    }
}

/// The VT100 graphics glyph for `0x5f + i`, `i < 32` (the Linux console's
/// table).
pub open spec fn vt100_glyph(i: int) -> u32 {
    let table: Seq<u32> = seq![
        0x00a0u32, 0x25c6, 0x2592, 0x2409, 0x240c, 0x240d, 0x240a, 0x00b0,
        0x00b1, 0x2424, 0x240b, 0x2518, 0x2510, 0x250c, 0x2514, 0x253c,
        0x23ba, 0x23bb, 0x2500, 0x23bc, 0x23bd, 0x251c, 0x2524, 0x2534,
        0x252c, 0x2502, 0x2264, 0x2265, 0x03c0, 0x2260, 0x00a3, 0x00b7,
    ];
    table[i]
}

/// What a drawn character becomes under a character set.
pub open spec fn spec_translate(cs: Charset, c: char) -> char {
    match cs {
        Charset::Latin1 => c,
        Charset::Vt100Graphics => if 0x5f <= (c as u32) && (c as u32) <= 0x7e {
            (vt100_glyph((c as u32) - 0x5f) as char)
        } else {
            c
        },
    }
}

fn vt100_glyph_exec(i: u32) -> (c: char)
    requires
        i < 32,
    ensures
        c as u32 == vt100_glyph(i as int),
{
    let table: [char; 32] = [
        '\u{a0}', '\u{25c6}', '\u{2592}', '\u{2409}', '\u{240c}', '\u{240d}', '\u{240a}', '\u{b0}',
        '\u{b1}', '\u{2424}', '\u{240b}', '\u{2518}', '\u{2510}', '\u{250c}', '\u{2514}', '\u{253c}',
        '\u{23ba}', '\u{23bb}', '\u{2500}', '\u{23bc}', '\u{23bd}', '\u{251c}', '\u{2524}', '\u{2534}',
        '\u{252c}', '\u{2502}', '\u{2264}', '\u{2265}', '\u{3c0}', '\u{2260}', '\u{a3}', '\u{b7}',
    ];
    let c = table[i as usize];
    assert(c as u32 == vt100_glyph(i as int));
    c
}

/// What a drawn character becomes under a character set.
pub fn translate(cs: Charset, c: char) -> (r: char)
    ensures
        r == spec_translate(cs, c),
{
    match cs {
        Charset::Latin1 => c,
        Charset::Vt100Graphics => {
            let u = c as u32;
            if 0x5f <= u && u <= 0x7e {
                vt100_glyph_exec(u - 0x5f)
            } else {
                c
            }
        },
    }
}

} // verus!
