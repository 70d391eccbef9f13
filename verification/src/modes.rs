//! Terminal mode switches used by [`crate::screens::Screen`].
//!
//! Private modes (set with `ESC [ ? N h`) are shifted left 5 bits so they stay
//! distinct from the non-private ones; e.g. Origin Mode ([`DECOM`]) is `192`.
use vstd::prelude::*;

verus! {

/// *Line Feed / New Line Mode*.
pub const LNM: u32 = 20;

/// *Insert / Replace Mode*.
pub const IRM: u32 = 4;

/// *Text Cursor Enable Mode* (private 25).
pub const DECTCEM: u32 = 800;

/// *Screen Mode*: screen-wide reverse video (private 5).
pub const DECSCNM: u32 = 160;

/// *Origin Mode* (private 6).
pub const DECOM: u32 = 192;

/// *Auto Wrap Mode* (private 7).
pub const DECAWM: u32 = 224;

/// *Column Mode*: 80 or 132 columns (private 3).
pub const DECCOLM: u32 = 96;

} // verus!
