//! Character width and combining classification, as a terminal's drawing
//! routine needs them.
use unicode_normalization::char::canonical_combining_class;
use unicode_normalization::UnicodeNormalization;
use unicode_width::UnicodeWidthChar;
use vstd::prelude::*;

verus! {

/// The displayed width that `unicode_width::UnicodeWidthChar::width` gives a
/// character (`None` for control characters).
pub uninterp spec fn unicode_width_of(c: char) -> Option<usize>;

/// The canonical combining class that
/// `unicode_normalization::char::canonical_combining_class` gives a character.
pub uninterp spec fn combining_class_of(c: char) -> u8;

/// The Normalization Form C of a string, as `unicode_normalization`'s `nfc`
/// gives it.
pub uninterp spec fn nfc_of(s: Seq<char>) -> Seq<char>;

/// Calls `UnicodeWidthChar::width`. Besides naming the result, the contract
/// states what the crate's lookup shows: no width for the control characters
/// U+0000..U+001F and U+007F..U+009F, width 1 for printable ASCII, and never a
/// width above 3 (the tables hold 0, 1, 2 and, for U+17D8, 3).
#[verifier::external_body]
fn char_width(c: char) -> (r: Option<usize>)
    ensures
        r == unicode_width_of(c),
        r is None <==> ((c as u32) < 0x20 || (0x7f <= (c as u32) && (c as u32) < 0xa0)),
        (0x20 <= (c as u32) && (c as u32) < 0x7f) ==> r == Some(1usize),
        r matches Some(w) ==> w <= 3,
{
    c.width()
}

/// Calls `unicode_normalization::char::canonical_combining_class`.
#[verifier::external_body]
fn combining_class(c: char) -> (r: u8)
    ensures
        r == combining_class_of(c),
{
    canonical_combining_class(c)
}

/// Calls `unicode_normalization`'s `nfc` on a string slice and collects it.
#[verifier::external_body]
pub(crate) fn nfc(s: &str) -> (r: String)
    ensures
        r@ == nfc_of(s@),
{
    s.nfc().collect()
}

/// Cell width of a character: `-1` for control characters, `0` for zero-width
/// and combining marks, `1` narrow, `2` wide.
pub open spec fn spec_wcwidth(c: char) -> int {
    match unicode_width_of(c) {
        None => -1,
        Some(w) => w as int,
    }
}

/// Cell width of a character: `-1` control, `0` zero-width/combining, `1`
/// narrow, `2` wide, and `3` for the one character the width tables give
/// three columns (U+17D8); drawing stops at a character of width 3.
pub fn wcwidth(ch: char) -> (w: i32)
    ensures
        w == spec_wcwidth(ch),
        -1 <= w <= 3,
        ((ch as u32) < 0x20 || (0x7f <= (ch as u32) && (ch as u32) < 0xa0)) <==> w == -1,
        (0x20 <= (ch as u32) && (ch as u32) < 0x7f) ==> w == 1,
{
    match char_width(ch) {
        None => -1,
        Some(w) => w as i32,
    }
}

/// Whether a character has a non-zero canonical combining class.
pub open spec fn spec_combining(c: char) -> bool {
    combining_class_of(c) != 0
}

/// Whether `ch` has a non-zero canonical combining class.
pub fn combining(ch: char) -> (b: bool)
    ensures
        b == spec_combining(ch),
{
    combining_class(ch) != 0
}

} // verus!
