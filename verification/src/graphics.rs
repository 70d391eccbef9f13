//! Graphic rendition (SGR) tables, mostly from `console_codes(4)`.
use vstd::prelude::*;

verus! {

/// The view of an optional string slice.
pub open spec fn opt_str_view(o: Option<&str>) -> Option<Seq<char>> {
    match o {
        Some(s) => Some(s@),
        None => None,
    }
}

/// A text style that SGR switches on or off.
#[derive(Clone, Copy, Debug, PartialEq, Eq, Structural)]
pub enum TextAttr {
    Bold,
    Italics,
    Underscore,
    Blink,
    Reverse,
    Strikethrough,
}

/// The style an SGR code switches, and whether it switches it on.
#[verifier::opaque]
pub open spec fn spec_text_attr(attr: i64) -> Option<(TextAttr, bool)> {
    if attr == 1 {
        Some((TextAttr::Bold, true))
    } else if attr == 3 {
        Some((TextAttr::Italics, true))
    } else if attr == 4 {
        Some((TextAttr::Underscore, true))
    } else if attr == 5 {
        Some((TextAttr::Blink, true))
    } else if attr == 7 {
        Some((TextAttr::Reverse, true))
    } else if attr == 9 {
        Some((TextAttr::Strikethrough, true))
    } else if attr == 22 {
        Some((TextAttr::Bold, false))
    } else if attr == 23 {
        Some((TextAttr::Italics, false))
    } else if attr == 24 {
        Some((TextAttr::Underscore, false))
    } else if attr == 25 {
        Some((TextAttr::Blink, false))
    } else if attr == 27 {
        Some((TextAttr::Reverse, false))
    } else if attr == 29 {
        Some((TextAttr::Strikethrough, false))
    } else {
        None
    }
}

/// The style an SGR code switches, and whether it switches it on.
pub fn text_attr(attr: i64) -> (r: Option<(TextAttr, bool)>)
    ensures
        r == spec_text_attr(attr),
{
    proof {
        reveal(spec_text_attr);
    }
    match attr {
        1 => Some((TextAttr::Bold, true)),
        3 => Some((TextAttr::Italics, true)),
        4 => Some((TextAttr::Underscore, true)),
        5 => Some((TextAttr::Blink, true)),
        7 => Some((TextAttr::Reverse, true)),
        9 => Some((TextAttr::Strikethrough, true)),
        22 => Some((TextAttr::Bold, false)),
        23 => Some((TextAttr::Italics, false)),
        24 => Some((TextAttr::Underscore, false)),
        25 => Some((TextAttr::Blink, false)),
        27 => Some((TextAttr::Reverse, false)),
        29 => Some((TextAttr::Strikethrough, false)),
        _ => None,
    }
}

/// The codes of text styles are no color codes.
pub proof fn lemma_text_attr_exclusive(attr: i64)
    requires
        spec_text_attr(attr) is Some,
    ensures
        spec_fg_ansi(attr) is None,
        spec_bg_ansi(attr) is None,
        spec_fg_aixterm(attr) is None,
        spec_bg_aixterm(attr) is None,
{
    reveal(spec_text_attr);
    reveal(spec_fg_ansi);
    reveal(spec_bg_ansi);
    reveal(spec_fg_aixterm);
    reveal(spec_bg_aixterm);
}

/// Text style codes as `"+field"` / `"-field"` names: `+` means the attribute
/// is set, `-` that it is reset.
#[verifier::opaque]
pub open spec fn spec_text(attr: i64) -> Option<Seq<char>> {
    if attr == 1 {
        Some("+bold"@)
    } else if attr == 3 {
        Some("+italics"@)
    } else if attr == 4 {
        Some("+underscore"@)
    } else if attr == 5 {
        Some("+blink"@)
    } else if attr == 7 {
        Some("+reverse"@)
    } else if attr == 9 {
        Some("+strikethrough"@)
    } else if attr == 22 {
        Some("-bold"@)
    } else if attr == 23 {
        Some("-italics"@)
    } else if attr == 24 {
        Some("-underscore"@)
    } else if attr == 25 {
        Some("-blink"@)
    } else if attr == 27 {
        Some("-reverse"@)
    } else if attr == 29 {
        Some("-strikethrough"@)
    } else {
        None
    }
}

/// A mapping of ANSI text style codes to `"+field"` / `"-field"` names, e.g.
/// `1 -> "+bold"`, `22 -> "-bold"`.
pub fn text(attr: i64) -> (r: Option<&'static str>)
    ensures
        opt_str_view(r) == spec_text(attr),
{
    proof {
        reveal(spec_text);
    }
    match attr {
        1 => Some("+bold"),
        3 => Some("+italics"),
        4 => Some("+underscore"),
        5 => Some("+blink"),
        7 => Some("+reverse"),
        9 => Some("+strikethrough"),
        22 => Some("-bold"),
        23 => Some("-italics"),
        24 => Some("-underscore"),
        25 => Some("-blink"),
        27 => Some("-reverse"),
        29 => Some("-strikethrough"),
        _ => None,
    }
}

/// ANSI foreground color codes (`39` is the default color).
#[verifier::opaque]
pub open spec fn spec_fg_ansi(attr: i64) -> Option<Seq<char>> {
    if attr == 30 {
        Some("black"@)
    } else if attr == 31 {
        Some("red"@)
    } else if attr == 32 {
        Some("green"@)
    } else if attr == 33 {
        Some("brown"@)
    } else if attr == 34 {
        Some("blue"@)
    } else if attr == 35 {
        Some("magenta"@)
    } else if attr == 36 {
        Some("cyan"@)
    } else if attr == 37 {
        Some("white"@)
    } else if attr == 39 {
        Some("default"@)
    } else {
        None
    }
}

/// A mapping of ANSI foreground color codes to color names.
pub fn fg_ansi(attr: i64) -> (r: Option<&'static str>)
    ensures
        opt_str_view(r) == spec_fg_ansi(attr),
{
    proof {
        reveal(spec_fg_ansi);
    }
    match attr {
        30 => Some("black"),
        31 => Some("red"),
        32 => Some("green"),
        33 => Some("brown"),
        34 => Some("blue"),
        35 => Some("magenta"),
        36 => Some("cyan"),
        37 => Some("white"),
        39 => Some("default"),
        _ => None,
    }
}

/// Non-standard `aixterm` foreground color codes (high intensity).
#[verifier::opaque]
pub open spec fn spec_fg_aixterm(attr: i64) -> Option<Seq<char>> {
    if attr == 90 {
        Some("brightblack"@)
    } else if attr == 91 {
        Some("brightred"@)
    } else if attr == 92 {
        Some("brightgreen"@)
    } else if attr == 93 {
        Some("brightbrown"@)
    } else if attr == 94 {
        Some("brightblue"@)
    } else if attr == 95 {
        Some("brightmagenta"@)
    } else if attr == 96 {
        Some("brightcyan"@)
    } else if attr == 97 {
        Some("brightwhite"@)
    } else {
        None
    }
}

/// A mapping of non-standard `aixterm` foreground color codes.
pub fn fg_aixterm(attr: i64) -> (r: Option<&'static str>)
    ensures
        opt_str_view(r) == spec_fg_aixterm(attr),
{
    proof {
        reveal(spec_fg_aixterm);
    }
    match attr {
        90 => Some("brightblack"),
        91 => Some("brightred"),
        92 => Some("brightgreen"),
        93 => Some("brightbrown"),
        94 => Some("brightblue"),
        95 => Some("brightmagenta"),
        96 => Some("brightcyan"),
        97 => Some("brightwhite"),
        _ => None,
    }
}

/// ANSI background color codes (`49` is the default color).
#[verifier::opaque]
pub open spec fn spec_bg_ansi(attr: i64) -> Option<Seq<char>> {
    if attr == 40 {
        Some("black"@)
    } else if attr == 41 {
        Some("red"@)
    } else if attr == 42 {
        Some("green"@)
    } else if attr == 43 {
        Some("brown"@)
    } else if attr == 44 {
        Some("blue"@)
    } else if attr == 45 {
        Some("magenta"@)
    } else if attr == 46 {
        Some("cyan"@)
    } else if attr == 47 {
        Some("white"@)
    } else if attr == 49 {
        Some("default"@)
    } else {
        None
    }
}

/// A mapping of ANSI background color codes to color names.
pub fn bg_ansi(attr: i64) -> (r: Option<&'static str>)
    ensures
        opt_str_view(r) == spec_bg_ansi(attr),
{
    proof {
        reveal(spec_bg_ansi);
    }
    match attr {
        40 => Some("black"),
        41 => Some("red"),
        42 => Some("green"),
        43 => Some("brown"),
        44 => Some("blue"),
        45 => Some("magenta"),
        46 => Some("cyan"),
        47 => Some("white"),
        49 => Some("default"),
        _ => None,
    }
}

/// Non-standard `aixterm` background color codes (high intensity). Code `105`
/// maps to `"bfightmagenta"`: the misspelling is kept so that output stays
/// byte-for-byte compatible with what clients already expect.
#[verifier::opaque]
pub open spec fn spec_bg_aixterm(attr: i64) -> Option<Seq<char>> {
    if attr == 100 {
        Some("brightblack"@)
    } else if attr == 101 {
        Some("brightred"@)
    } else if attr == 102 {
        Some("brightgreen"@)
    } else if attr == 103 {
        Some("brightbrown"@)
    } else if attr == 104 {
        Some("brightblue"@)
    } else if attr == 105 {
        Some("bfightmagenta"@)
    } else if attr == 106 {
        Some("brightcyan"@)
    } else if attr == 107 {
        Some("brightwhite"@)
    } else {
        None
    }
}

/// A mapping of non-standard `aixterm` background color codes.
pub fn bg_aixterm(attr: i64) -> (r: Option<&'static str>)
    ensures
        opt_str_view(r) == spec_bg_aixterm(attr),
{
    proof {
        reveal(spec_bg_aixterm);
    }
    match attr {
        100 => Some("brightblack"),
        101 => Some("brightred"),
        102 => Some("brightgreen"),
        103 => Some("brightbrown"),
        104 => Some("brightblue"),
        105 => Some("bfightmagenta"),
        106 => Some("brightcyan"),
        107 => Some("brightwhite"),
        _ => None,
    }
}

/// SGR code for foreground in 256 or True color mode.
pub const FG_256: i64 = 38;

/// SGR code for background in 256 or True color mode.
pub const BG_256: i64 = 48;

/// The six intensities of the 6x6x6 color cube.
pub open spec fn cube_level(i: int) -> int {
    if i == 0 {
        0x00
    } else if i == 1 {
        0x5f
    } else if i == 2 {
        0x87
    } else if i == 3 {
        0xaf
    } else if i == 4 {
        0xd7
    } else {
        0xff
    }
}

/// The sixteen standard colors (part of the Pygments project).
pub open spec fn base_color(i: int) -> (int, int, int) {
    if i == 0 {
        (0x00, 0x00, 0x00)
    } else if i == 1 {
        (0xcd, 0x00, 0x00)
    } else if i == 2 {
        (0x00, 0xcd, 0x00)
    } else if i == 3 {
        (0xcd, 0xcd, 0x00)
    } else if i == 4 {
        (0x00, 0x00, 0xee)
    } else if i == 5 {
        (0xcd, 0x00, 0xcd)
    } else if i == 6 {
        (0x00, 0xcd, 0xcd)
    } else if i == 7 {
        (0xe5, 0xe5, 0xe5)
    } else if i == 8 {
        (0x7f, 0x7f, 0x7f)
    } else if i == 9 {
        (0xff, 0x00, 0x00)
    } else if i == 10 {
        (0x00, 0xff, 0x00)
    } else if i == 11 {
        (0xff, 0xff, 0x00)
    } else if i == 12 {
        (0x5c, 0x5c, 0xff)
    } else if i == 13 {
        (0xff, 0x00, 0xff)
    } else if i == 14 {
        (0x00, 0xff, 0xff)
    } else {
        (0xff, 0xff, 0xff)
    }
}

/// The red, green and blue intensities of entry `i` of the 256-color table:
/// 16 standard colors, then the 6x6x6 color cube, then 24 shades of gray.
pub open spec fn palette_rgb(i: int) -> (int, int, int) {
    if i < 16 {
        base_color(i)
    } else if i < 232 {
        let c = i - 16;
        (cube_level((c / 36) % 6), cube_level((c / 6) % 6), cube_level(c % 6))
    } else {
        let v = 8 + (i - 232) * 10;
        (v, v, v)
    }
}

fn cube_level_exec(i: usize) -> (v: u8)
    requires
        i < 6,
    ensures
        v == cube_level(i as int),
{
    match i {
        0 => 0x00,
        1 => 0x5f,
        2 => 0x87,
        3 => 0xaf,
        4 => 0xd7,
        _ => 0xff,
    }
}

fn base_color_exec(i: usize) -> (c: (u8, u8, u8))
    requires
        i < 16,
    ensures
        (c.0 as int, c.1 as int, c.2 as int) == base_color(i as int),
{
    match i {
        0 => (0x00, 0x00, 0x00),
        1 => (0xcd, 0x00, 0x00),
        2 => (0x00, 0xcd, 0x00),
        3 => (0xcd, 0xcd, 0x00),
        4 => (0x00, 0x00, 0xee),
        5 => (0xcd, 0x00, 0xcd),
        6 => (0x00, 0xcd, 0xcd),
        7 => (0xe5, 0xe5, 0xe5),
        8 => (0x7f, 0x7f, 0x7f),
        9 => (0xff, 0x00, 0x00),
        10 => (0x00, 0xff, 0x00),
        11 => (0xff, 0xff, 0x00),
        12 => (0x5c, 0x5c, 0xff),
        13 => (0xff, 0x00, 0xff),
        14 => (0x00, 0xff, 0xff),
        _ => (0xff, 0xff, 0xff),
    }
}

/// The red, green and blue intensities of entry `i` of the 256-color table.
pub fn palette_color(i: usize) -> (c: (u8, u8, u8))
    requires
        i < 256,
    ensures
        (c.0 as int, c.1 as int, c.2 as int) == palette_rgb(i as int),
{
    if i < 16 {
        base_color_exec(i)
    } else if i < 232 {
        let c = i - 16;
        (cube_level_exec((c / 36) % 6), cube_level_exec((c / 6) % 6), cube_level_exec(c % 6))
    } else {
        let v = (8 + (i - 232) * 10) as u8;
        (v, v, v)
    }
}

} // verus!
