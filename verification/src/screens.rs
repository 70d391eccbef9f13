//! The screen model: an in-memory matrix of styled characters plus cursor,
//! modes, margins, tab stops, character sets and optional scrollback.
//!
//! The matrix is sparse. A row that was never touched is absent and reads as
//! the screen's current default character; a row that exists keeps the default
//! it was created with for the columns it does not hold. Coordinates and counts
//! are `i64`: intermediate values go negative before the cursor is clamped.
use crate::charsets::{maps, spec_charset_for, spec_translate, translate, Charset};
use crate::graphics as g;
use crate::graphics::{palette_rgb, spec_bg_aixterm, spec_bg_ansi, spec_fg_aixterm, spec_fg_ansi};
use crate::intmap::{keys_sorted, IntMap, IntSet};
use crate::modes as mo;
use crate::streams::{EventM, Listener, Op};
use crate::textfmt::{push_char, push_chars, str_eq, push_dec, push_hex2, str_chars, str_to_string, string_copy, dec_int, hex_nat, pad2};
use crate::wcwidth::{combining, nfc, nfc_of, spec_combining, spec_wcwidth, wcwidth};
use vstd::prelude::*;

verus! {

/// Largest number of columns or lines a screen may have, and largest
/// scrollback. This bound is the model's own choice, not the protocol's:
/// with it every sum and product of sizes, counts and page steps that the
/// screen computes (a paging step is a height times a 32-bit ratio) stays in
/// `i64` and `u64`, so no operation can overflow; a size beyond it could not
/// be drawn in memory anyway.
pub const DIM_MAX: i64 = 0x4000_0000;

/// Largest distance of the cursor from the origin. Also the model's own
/// choice: commands may move the cursor outside the screen before it is
/// clamped, and keeping it within this bound (far beyond any screen size)
/// leaves room for every later command's count to be added in `i64`.
pub const COORD_MAX: i64 = 0x100_0000_0000;

/// The abstract value of a styled character.
#[verifier::ext_equal]
pub struct CharM {
    pub data: Seq<char>,
    pub fg: Seq<char>,
    pub bg: Seq<char>,
    pub bold: bool,
    pub italics: bool,
    pub underscore: bool,
    pub strikethrough: bool,
    pub reverse: bool,
    pub blink: bool,
}

/// A single styled on-screen character.
///
/// `data` is normally one character; `""` marks the slot after a full-width
/// character; combining marks are folded into the preceding cell, so it can
/// hold a short grapheme.
#[derive(Debug)]
pub struct Char {
    pub data: String,
    pub fg: String,
    pub bg: String,
    pub bold: bool,
    pub italics: bool,
    pub underscore: bool,
    pub strikethrough: bool,
    pub reverse: bool,
    pub blink: bool,
}

impl View for Char {
    type V = CharM;

    open spec fn view(&self) -> CharM {
        CharM {
            data: self.data@,
            fg: self.fg@,
            bg: self.bg@,
            bold: self.bold,
            italics: self.italics,
            underscore: self.underscore,
            strikethrough: self.strikethrough,
            reverse: self.reverse,
            blink: self.blink,
        }
    }
}

/// A character with the default colors and every style off.
pub open spec fn plain_char(data: Seq<char>) -> CharM {
    CharM {
        data,
        fg: "default"@,
        bg: "default"@,
        bold: false,
        italics: false,
        underscore: false,
        strikethrough: false,
        reverse: false,
        blink: false,
    }
}

impl Char {
    /// A character holding `data`, with the default colors and every style off.
    pub fn new(data: &str) -> (c: Char)
        ensures
            c@ == plain_char(data@),
    {
        Char {
            data: str_to_string(data),
            fg: str_to_string("default"),
            bg: str_to_string("default"),
            bold: false,
            italics: false,
            underscore: false,
            strikethrough: false,
            reverse: false,
            blink: false,
        }
    }

    /// A copy of this character.
    pub fn dup(&self) -> (c: Char)
        ensures
            c@ == self@,
    {
        Char {
            data: string_copy(&self.data),
            fg: string_copy(&self.fg),
            bg: string_copy(&self.bg),
            bold: self.bold,
            italics: self.italics,
            underscore: self.underscore,
            strikethrough: self.strikethrough,
            reverse: self.reverse,
            blink: self.blink,
        }
    }
}

/// The abstract value of the cursor.
#[verifier::ext_equal]
pub struct CursorM {
    pub x: int,
    pub y: int,
    pub attrs: CharM,
    pub hidden: bool,
}

/// The screen cursor: position, the attributes new characters get, and
/// whether it is shown.
#[derive(Debug)]
pub struct Cursor {
    pub x: i64,
    pub y: i64,
    pub attrs: Char,
    pub hidden: bool,
}

impl View for Cursor {
    type V = CursorM;

    open spec fn view(&self) -> CursorM {
        CursorM { x: self.x as int, y: self.y as int, attrs: self.attrs@, hidden: self.hidden }
    }
}

/// A visible cursor at `(x, y)` with plain attributes holding a space.
pub open spec fn home_cursor(x: int, y: int) -> CursorM {
    CursorM { x, y, attrs: plain_char(" "@), hidden: false }
}

impl Cursor {
    fn new(x: i64, y: i64) -> (c: Cursor)
        ensures
            c@ == home_cursor(x as int, y as int),
    {
        Cursor { x, y, attrs: Char::new(" "), hidden: false }
    }

    /// A copy of this cursor.
    pub fn dup(&self) -> (c: Cursor)
        ensures
            c@ == self@,
    {
        Cursor { x: self.x, y: self.y, attrs: self.attrs.dup(), hidden: self.hidden }
    }
}

/// Scroll margins: the first and last line of the scrolling region.
#[derive(Clone, Copy, Debug, PartialEq, Eq, Structural)]
pub struct Margins {
    pub top: i64,
    pub bottom: i64,
}

/// The abstract value of a saved cursor state.
#[verifier::ext_equal]
pub struct SavepointM {
    pub cursor: CursorM,
    pub g0: Charset,
    pub g1: Charset,
    pub charset: int,
    pub origin: bool,
    pub wrap: bool,
}

/// Cursor state saved by `DECSC` and restored by `DECRC`.
struct Savepoint {
    cursor: Cursor,
    g0_charset: Charset,
    g1_charset: Charset,
    charset: i64,
    origin: bool,
    wrap: bool,
}

impl View for Savepoint {
    type V = SavepointM;

    closed spec fn view(&self) -> SavepointM {
        SavepointM {
            cursor: self.cursor@,
            g0: self.g0_charset,
            g1: self.g1_charset,
            charset: self.charset as int,
            origin: self.origin,
            wrap: self.wrap,
        }
    }
}

/// The abstract value of a screen line: the columns it holds and the
/// character the others read as.
#[verifier::ext_equal]
pub struct LineM {
    pub cells: Map<int, CharM>,
    pub default: CharM,
}

/// A sparse screen line: the written columns, and the character every other
/// column reads as.
struct Line {
    cells: IntMap<Char>,
    default: Char,
}

impl View for Line {
    type V = LineM;

    closed spec fn view(&self) -> LineM {
        LineM { cells: self.cells@, default: self.default@ }
    }
}

impl Line {
    #[verifier::type_invariant]
    closed spec fn inv(self) -> bool {
        self.cells.wf()
    }

    fn new(default: Char) -> (l: Line)
        ensures
            l@ == (LineM { cells: Map::empty(), default: default@ }),
    {
        Line { cells: IntMap::new(), default }
    }

    /// The character at column `x`.
    fn get(&self, x: i64) -> (c: Char)
        ensures
            c@ == line_get(self@, x as int),
    {
        proof {
            use_type_invariant(self);
        }
        match self.cells.get(x) {
            Some(c) => c.dup(),
            None => self.default.dup(),
        }
    }

    /// Sets column `x` to `c`.
    fn set(&mut self, x: i64, c: Char)
        ensures
            final(self)@ == (LineM { cells: old(self)@.cells.insert(x as int, c@), ..old(self)@ }),
    {
        proof {
            use_type_invariant(&*self);
        }
        let mut cells = IntMap::new();
        std::mem::swap(&mut cells, &mut self.cells);
        cells.insert(x, c);
        std::mem::swap(&mut cells, &mut self.cells);
    }

    /// Removes column `x`, returning what it held.
    fn pop(&mut self, x: i64) -> (r: Option<Char>)
        ensures
            final(self)@ == (LineM { cells: old(self)@.cells.remove(x as int), ..old(self)@ }),
            r is Some <==> old(self)@.cells.contains_key(x as int),
            r matches Some(c) ==> c@ == old(self)@.cells[x as int],
    {
        proof {
            use_type_invariant(&*self);
        }
        let mut cells = IntMap::new();
        std::mem::swap(&mut cells, &mut self.cells);
        let r = cells.remove(x);
        std::mem::swap(&mut cells, &mut self.cells);
        r
    }

    /// This line with column `x` set to `c`.
    fn with(self, x: i64, c: Char) -> (l: Line)
        ensures
            l@ == (LineM { cells: self@.cells.insert(x as int, c@), ..self@ }),
    {
        let mut l = self;
        l.set(x, c);
        l
    }

    /// This line without column `x`.
    fn without(self, x: i64) -> (l: Line)
        ensures
            l@ == (LineM { cells: self@.cells.remove(x as int), ..self@ }),
    {
        proof {
            use_type_invariant(&self);
        }
        let Line { mut cells, default } = self;
        cells.remove(x);
        Line { cells, default }
    }

    /// This line without column `x`, and what column `x` held.
    fn take(self, x: i64) -> (r: (Line, Option<Char>))
        ensures
            r.0@ == (LineM { cells: self@.cells.remove(x as int), ..self@ }),
            r.1 is Some <==> self@.cells.contains_key(x as int),
            r.1 matches Some(c) ==> c@ == self@.cells[x as int],
    {
        let mut l = self;
        let c = l.pop(x);
        (l, c)
    }

    /// This line with every column it holds set to `c`.
    fn recolored(self, c: &Char) -> (l: Line)
        ensures
            l@ == recolor_line(self@, c@),
    {
        proof {
            use_type_invariant(&self);
        }
        let Line { mut cells, default } = self;
        let ghost orig = cells.entries@;
        let ghost m0 = cells@;
        let n = cells.entry_count();
        let mut i: usize = 0;
        while i < n
            invariant
                cells.wf(),
                keys_sorted(orig),
                cells.entries@.len() == n,
                orig.len() == n,
                i <= n,
                m0 == crate::intmap::assoc_map(orig),
                forall|j: int| 0 <= j < n ==> (#[trigger] cells.entries@[j]).0 == orig[j].0,
                forall|j: int| 0 <= j < i ==> (#[trigger] cells.entries@[j]).1@ == c@,
                forall|j: int| i <= j < n ==> #[trigger] cells.entries@[j] == orig[j],
            decreases n - i,
        {
            cells.set_value_at(i, c.dup());
            i = i + 1;
        }
        proof {
            let target = Map::new(|x: int| m0.contains_key(x), |x: int| c@);
            assert forall|x: int| cells@.contains_key(x) <==> target.contains_key(x) by {
                if cells@.contains_key(x) {
                    let j = choose|j: int| 0 <= j < n && cells.entries@[j].0 == x;
                    assert(orig[j].0 == x);
                }
                if m0.contains_key(x) {
                    let j = choose|j: int| 0 <= j < n && orig[j].0 == x;
                    assert(cells.entries@[j].0 == x);
                }
            }
            assert forall|x: int| #[trigger] cells@.contains_key(x) implies cells@[x] == target[x] by {
                let j = choose|j: int| 0 <= j < n && cells.entries@[j].0 == x;
                cells.lemma_view_index(j);
            }
            assert(cells@ =~= target);
        }
        Line { cells, default }
    }

    fn dup(&self) -> (l: Line)
        ensures
            l@ == self@,
    {
        proof {
            use_type_invariant(self);
        }
        let mut cells: IntMap<Char> = IntMap::new();
        let n = self.cells.entries.len();
        let mut i: usize = 0;
        while i < n
            invariant
                n == self.cells.entries@.len(),
                i <= n,
                self.cells.wf(),
                cells.wf(),
                cells.entries@.len() == i,
                forall|j: int|
                    0 <= j < i ==> (#[trigger] cells.entries@[j]).0 == self.cells.entries@[j].0
                        && cells.entries@[j].1@ == self.cells.entries@[j].1@,
            decreases n - i,
        {
            let k = self.cells.entries[i].0;
            let c = self.cells.entries[i].1.dup();
            cells.entries.push((k, c));
            proof {
                let s = cells.entries@;
                assert forall|a: int, b: int| 0 <= a < b < s.len() implies #[trigger] s[a].0
                    < #[trigger] s[b].0 by {
                    assert(self.cells.entries@[a].0 < self.cells.entries@[b].0);
                }
            }
            i = i + 1;
        }
        proof {
            assert forall|key: int| cells@.contains_key(key) <==> self.cells@.contains_key(key) by {
                if cells@.contains_key(key) {
                    let j = choose|j: int| 0 <= j < n && cells.entries@[j].0 == key;
                    assert(self.cells.entries@[j].0 == key);
                }
                if self.cells@.contains_key(key) {
                    let j = choose|j: int| 0 <= j < n && self.cells.entries@[j].0 == key;
                    assert(cells.entries@[j].0 == key);
                }
            }
            assert forall|key: int| #[trigger] cells@.contains_key(key) implies cells@[key]
                == self.cells@[key] by {
                let j = choose|j: int| 0 <= j < n && cells.entries@[j].0 == key;
                cells.lemma_view_index(j);
                self.cells.lemma_view_index(j);
            }
            assert(cells@ =~= self.cells@);
        }
        Line { cells, default: self.default.dup() }
    }
}

/// The character a line shows at column `x`.
pub open spec fn line_get(l: LineM, x: int) -> CharM {
    if l.cells.contains_key(x) {
        l.cells[x]
    } else {
        l.default
    }
}

/// The abstract value of the scrollback.
#[verifier::ext_equal]
pub struct HistoryM {
    pub top: Seq<LineM>,
    pub bottom: Seq<LineM>,
    pub ratio_num: int,
    pub ratio_den: int,
    pub size: int,
    pub position: int,
    pub maxlen: int,
}

/// Scrollback: lines scrolled off the top and, while paging, lines pushed off
/// the bottom. `ratio_num / ratio_den` is the fraction of the screen one page
/// moves.
struct History {
    top: Vec<Line>,
    bottom: Vec<Line>,
    ratio_num: u32,
    ratio_den: u32,
    size: usize,
    position: usize,
    maxlen: usize,
}

impl View for History {
    type V = HistoryM;

    closed spec fn view(&self) -> HistoryM {
        HistoryM {
            top: self.top@.map_values(|l: Line| l@),
            bottom: self.bottom@.map_values(|l: Line| l@),
            ratio_num: self.ratio_num as int,
            ratio_den: self.ratio_den as int,
            size: self.size as int,
            position: self.position as int,
            maxlen: self.maxlen as int,
        }
    }
}

impl History {
    closed spec fn wf(&self) -> bool {
        &&& self.ratio_den > 0
        &&& self.size <= DIM_MAX
        &&& self.maxlen <= DIM_MAX
        &&& self.position <= 2 * DIM_MAX
        &&& self.top@.len() <= self.maxlen
        &&& self.bottom@.len() <= self.maxlen
    }
}

/// The abstract value of a screen.
#[verifier::ext_equal]
pub struct ScreenM {
    pub savepoints: Seq<SavepointM>,
    pub columns: int,
    pub lines: int,
    pub buffer: Map<int, LineM>,
    pub dirty: Set<int>,
    pub mode: Set<int>,
    pub margins: Option<Margins>,
    pub title: Seq<char>,
    pub icon_name: Seq<char>,
    pub charset: int,
    pub g0: Charset,
    pub g1: Charset,
    pub tabstops: Set<int>,
    pub cursor: CursorM,
    pub saved_columns: Option<int>,
    pub outgoing: Seq<char>,
    pub history: Option<HistoryM>,
}

/// A terminal screen: an in-memory matrix of characters plus cursor, modes,
/// margins, tab stops, character sets, and optional scrollback.
pub struct Screen {
    savepoints: Vec<Savepoint>,
    pub columns: i64,
    pub lines: i64,
    buffer: IntMap<Line>,
    pub dirty: IntSet,
    pub mode: IntSet,
    margins: Option<Margins>,
    pub title: String,
    pub icon_name: String,
    charset: i64,
    g0_charset: Charset,
    g1_charset: Charset,
    tabstops: IntSet,
    pub cursor: Cursor,
    saved_columns: Option<i64>,
    /// Replies for the child process (device reports), to be forwarded.
    pub outgoing: String,
    history: Option<History>,
}

impl View for Screen {
    type V = ScreenM;

    closed spec fn view(&self) -> ScreenM {
        ScreenM {
            savepoints: self.savepoints@.map_values(|p: Savepoint| p@),
            columns: self.columns as int,
            lines: self.lines as int,
            buffer: self.buffer@,
            dirty: self.dirty@,
            mode: self.mode@,
            margins: self.margins,
            title: self.title@,
            icon_name: self.icon_name@,
            charset: self.charset as int,
            g0: self.g0_charset,
            g1: self.g1_charset,
            tabstops: self.tabstops@,
            cursor: self.cursor@,
            saved_columns: match self.saved_columns {
                Some(c) => Some(c as int),
                None => None,
            },
            outgoing: self.outgoing@,
            history: match self.history {
                Some(h) => Some(h@),
                None => None,
            },
        }
    }
}

// ── the model ─────────────────────────────────────────────────────────────

/// Whether `v` is an `i64` value.
pub open spec fn fits_i64(v: int) -> bool {
    i64::MIN <= v <= i64::MAX
}

/// A count parameter: absent or zero means one.
pub open spec fn count_or_one(o: Option<i64>) -> int {
    match o {
        Some(c) => if c != 0 {
            c as int
        } else {
            1
        },
        None => 1,
    }
}

/// Whether a cursor coordinate is within the bounds the model keeps.
pub open spec fn coord_ok(v: int) -> bool {
    -COORD_MAX <= v <= COORD_MAX
}

/// The bounds on a screen's model that keep its arithmetic in `i64`.
pub open spec fn model_ok(s: ScreenM) -> bool {
    &&& 0 <= s.columns <= DIM_MAX
    &&& 0 <= s.lines <= DIM_MAX
    &&& coord_ok(s.cursor.x)
    &&& coord_ok(s.cursor.y)
    &&& forall|t: int| #[trigger] s.tabstops.contains(t) ==> coord_ok(t)
    &&& forall|m: int| #[trigger] s.mode.contains(m) ==> 0 <= m <= u32::MAX
    &&& forall|i: int|
        0 <= i < s.savepoints.len() ==> coord_ok((#[trigger] s.savepoints[i]).cursor.x)
            && coord_ok(s.savepoints[i].cursor.y) && (s.savepoints[i].charset == 0
            || s.savepoints[i].charset == 1)
    &&& s.charset == 0 || s.charset == 1
    &&& (s.margins matches Some(m) ==> 0 <= m.top < m.bottom <= s.lines - 1)
    &&& (s.saved_columns matches Some(c) ==> 0 <= c <= DIM_MAX)
    &&& (s.history matches Some(h) ==> {
        &&& h.ratio_num >= 0
        &&& h.ratio_den > 0
        &&& 0 <= h.size <= DIM_MAX
        &&& h.maxlen == h.size
        &&& 0 <= h.position <= 2 * DIM_MAX
        &&& h.top.len() <= h.maxlen
        &&& h.bottom.len() <= h.maxlen
        &&& h.position < h.size ==> h.bottom.len() >= h.size - h.position && h.ratio_num > 0
            && s.lines > 0
    })
}

/// The default modes: auto-wrap and a visible cursor.
pub open spec fn default_modes() -> Set<int> {
    set![mo::DECAWM as int, mo::DECTCEM as int]
}

/// An empty character with default colors; reversed under `DECSCNM`.
pub open spec fn default_char(s: ScreenM) -> CharM {
    CharM { reverse: s.mode.contains(mo::DECSCNM as int), ..plain_char(" "@) }
}

/// The scroll margins, or the whole screen when none are set.
pub open spec fn margins_or_default(s: ScreenM) -> Margins {
    match s.margins {
        Some(m) => m,
        None => Margins { top: 0, bottom: (s.lines - 1) as i64 },
    }
}

/// Row `y` of the buffer, or the fresh row that writing to it creates.
pub open spec fn line_or_new(s: ScreenM, y: int) -> LineM {
    if s.buffer.contains_key(y) {
        s.buffer[y]
    } else {
        LineM { cells: Map::empty(), default: default_char(s) }
    }
}

/// The character at `(x, y)`.
pub open spec fn cell_at(s: ScreenM, x: int, y: int) -> CharM {
    if s.buffer.contains_key(y) {
        line_get(s.buffer[y], x)
    } else {
        default_char(s)
    }
}

/// `s` with the character at `(x, y)` replaced by `c`.
#[verifier::opaque]
pub open spec fn with_cell(s: ScreenM, x: int, y: int, c: CharM) -> ScreenM {
    let l = line_or_new(s, y);
    ScreenM { buffer: s.buffer.insert(y, LineM { cells: l.cells.insert(x, c), ..l }), ..s }
}

/// `s` with the cursor moved to column `x`.
pub open spec fn with_x(s: ScreenM, x: int) -> ScreenM {
    ScreenM { cursor: CursorM { x, ..s.cursor }, ..s }
}

/// `s` with the cursor moved to line `y`.
pub open spec fn with_y(s: ScreenM, y: int) -> ScreenM {
    ScreenM { cursor: CursorM { y, ..s.cursor }, ..s }
}

/// `s` with rows `lo..hi` marked dirty.
pub open spec fn dirty_range(s: ScreenM, lo: int, hi: int) -> ScreenM {
    ScreenM { dirty: s.dirty.union(Set::new(|k: int| lo <= k < hi)), ..s }
}

pub open spec fn min(a: int, b: int) -> int {
    if a <= b {
        a
    } else {
        b
    }
}

pub open spec fn max(a: int, b: int) -> int {
    if a >= b {
        a
    } else {
        b
    }
}

/// `ensure_hbounds`: the cursor column clamped into the screen.
pub open spec fn spec_ensure_hbounds(s: ScreenM) -> ScreenM {
    with_x(s, min(max(0, s.cursor.x), s.columns - 1))
}

/// `ensure_vbounds`: the cursor line clamped into the margins (when asked or
/// under origin mode) or into the screen.
pub open spec fn spec_ensure_vbounds(s: ScreenM, use_margins: Option<bool>) -> ScreenM {
    let (top, bottom) = match s.margins {
        Some(m) => if use_margins == Some(true) || s.mode.contains(mo::DECOM as int) {
            (m.top as int, m.bottom as int)
        } else {
            (0, s.lines - 1)
        },
        None => (0, s.lines - 1),
    };
    with_y(s, min(max(top, s.cursor.y), bottom))
}

/// `cursor_position`: move to a 1-based `(line, column)`; under origin mode
/// the line counts from the top margin and a line outside the margins is
/// ignored.
pub open spec fn spec_cursor_position(
    s: ScreenM,
    line: Option<i64>,
    column: Option<i64>,
) -> ScreenM {
    let column = count_or_one(column) - 1;
    let line = count_or_one(line) - 1;
    let origin = s.margins is Some && s.mode.contains(mo::DECOM as int);
    let m = margins_or_default(s);
    let line = if origin {
        line + m.top
    } else {
        line
    };
    if origin && !(m.top <= line <= m.bottom) {
        s
    } else {
        spec_ensure_vbounds(spec_ensure_hbounds(with_y(with_x(s, column), line)), None)
    }
}

/// What `cursor_position` needs to stay in `i64`.
pub open spec fn cursor_position_ok(line: Option<i64>, column: Option<i64>) -> bool {
    &&& column != Some(i64::MIN)
    &&& line != Some(i64::MIN)
    &&& fits_i64(count_or_one(line) - 1 + DIM_MAX)
}

/// `cursor_to_column`: move to a 1-based column.
pub open spec fn spec_cursor_to_column(s: ScreenM, column: Option<i64>) -> ScreenM {
    spec_ensure_hbounds(with_x(s, count_or_one(column) - 1))
}

/// `cursor_to_line`: move to a 1-based line (from the top margin under origin
/// mode).
pub open spec fn spec_cursor_to_line(s: ScreenM, line: Option<i64>) -> ScreenM {
    let y = count_or_one(line) - 1;
    let y = if s.mode.contains(mo::DECOM as int) && s.margins is Some {
        y + s.margins->Some_0.top
    } else {
        y
    };
    spec_ensure_vbounds(with_y(s, y), None)
}

/// `cursor_up`: up `count` lines, stopping at the top margin.
pub open spec fn spec_cursor_up(s: ScreenM, count: Option<i64>) -> ScreenM {
    with_y(s, max(s.cursor.y - count_or_one(count), margins_or_default(s).top as int))
}

/// `cursor_down`: down `count` lines, stopping at the bottom margin.
pub open spec fn spec_cursor_down(s: ScreenM, count: Option<i64>) -> ScreenM {
    with_y(s, min(s.cursor.y + count_or_one(count), margins_or_default(s).bottom as int))
}

/// `cursor_back`: left `count` columns (from the last column when the cursor
/// sits past it), clamped into the screen.
pub open spec fn spec_cursor_back(s: ScreenM, count: Option<i64>) -> ScreenM {
    let x = if s.cursor.x == s.columns {
        s.cursor.x - 1
    } else {
        s.cursor.x
    };
    spec_ensure_hbounds(with_x(s, x - count_or_one(count)))
}

/// `cursor_forward`: right `count` columns, clamped into the screen.
pub open spec fn spec_cursor_forward(s: ScreenM, count: Option<i64>) -> ScreenM {
    spec_ensure_hbounds(with_x(s, s.cursor.x + count_or_one(count)))
}

/// `carriage_return`: to column 0.
pub open spec fn spec_carriage_return(s: ScreenM) -> ScreenM {
    with_x(s, 0)
}

/// The map `b` after rows `top..cur` have each taken the row below them
/// (the row a step moves away from is left empty).
pub open spec fn shift_up_upto(b: Map<int, LineM>, top: int, cur: int) -> Map<int, LineM> {
    Map::new(
        |k: int|
            if top <= k < cur {
                b.contains_key(k + 1)
            } else if k == cur && cur > top {
                false
            } else {
                b.contains_key(k)
            },
        |k: int|
            if top <= k < cur {
                b[k + 1]
            } else {
                b[k]
            },
    )
}

/// Rows `top..=bottom` of `b` scrolled up by one: each row takes the one below
/// it and row `bottom` becomes empty.
pub open spec fn shift_up(b: Map<int, LineM>, top: int, bottom: int) -> Map<int, LineM> {
    shift_up_upto(b, top, max(top, bottom)).remove(bottom)
}

/// The map `b` after rows `cur+1..=bottom` have each taken the row above them
/// (the row a step moves away from is left empty).
pub open spec fn shift_down_from(b: Map<int, LineM>, cur: int, bottom: int) -> Map<int, LineM> {
    Map::new(
        |k: int|
            if cur < k <= bottom {
                b.contains_key(k - 1)
            } else if k == cur && cur < bottom {
                false
            } else {
                b.contains_key(k)
            },
        |k: int|
            if cur < k <= bottom {
                b[k - 1]
            } else {
                b[k]
            },
    )
}

/// Rows `top..=bottom` of `b` scrolled down by one: each row takes the one
/// above it and row `top` becomes empty.
pub open spec fn shift_down(b: Map<int, LineM>, top: int, bottom: int) -> Map<int, LineM> {
    shift_down_from(b, min(top, bottom), bottom).remove(top)
}

/// The last `n` lines of `t` (all of them when there are fewer).
pub open spec fn keep_last(t: Seq<LineM>, n: int) -> Seq<LineM> {
    if t.len() > n {
        t.subrange(t.len() - n, t.len() as int)
    } else {
        t
    }
}

/// The first `n` lines of `t` (all of them when there are fewer).
pub open spec fn keep_first(t: Seq<LineM>, n: int) -> Seq<LineM> {
    if t.len() > n {
        t.subrange(0, n)
    } else {
        t
    }
}

/// `s` with a line added to the history's top queue, oldest lines dropped
/// beyond its capacity.
pub open spec fn history_push_top(s: ScreenM, l: LineM) -> ScreenM {
    match s.history {
        Some(h) => ScreenM {
            history: Some(HistoryM { top: keep_last(h.top.push(l), h.maxlen), ..h }),
            ..s
        },
        None => s,
    }
}

/// `s` with a line added at the back of the history's bottom queue, the
/// front lines dropped beyond its capacity.
pub open spec fn history_push_bottom_back(s: ScreenM, l: LineM) -> ScreenM {
    match s.history {
        Some(h) => ScreenM {
            history: Some(HistoryM { bottom: keep_last(h.bottom.push(l), h.maxlen), ..h }),
            ..s
        },
        None => s,
    }
}

/// `index`: move down one line; at the bottom margin the region scrolls up
/// (with scrollback, the line leaving the top is kept in history).
#[verifier::opaque]
pub open spec fn spec_index(s: ScreenM) -> ScreenM {
    let m = margins_or_default(s);
    let top = m.top as int;
    let bottom = m.bottom as int;
    let s1 = if s.history is Some && s.cursor.y == bottom {
        let l = line_or_new(s, top);
        history_push_top(ScreenM { buffer: s.buffer.insert(top, l), ..s }, l)
    } else {
        s
    };
    if s1.cursor.y == bottom {
        ScreenM { buffer: shift_up(s1.buffer, top, bottom), ..dirty_range(s1, 0, s1.lines) }
    } else {
        spec_cursor_down(s1, None)
    }
}

/// `reverse_index`: move up one line; at the top margin the region scrolls
/// down (with scrollback, the line leaving the bottom is kept in history).
#[verifier::opaque]
pub open spec fn spec_reverse_index(s: ScreenM) -> ScreenM {
    let m = margins_or_default(s);
    let top = m.top as int;
    let bottom = m.bottom as int;
    let s1 = if s.history is Some && s.cursor.y == top {
        let l = line_or_new(s, bottom);
        history_push_bottom_back(ScreenM { buffer: s.buffer.insert(bottom, l), ..s }, l)
    } else {
        s
    };
    if s1.cursor.y == top {
        ScreenM { buffer: shift_down(s1.buffer, top, bottom), ..dirty_range(s1, 0, s1.lines) }
    } else {
        spec_cursor_up(s1, None)
    }
}

/// `linefeed`: index, then a carriage return under new line mode.
pub open spec fn spec_linefeed(s: ScreenM) -> ScreenM {
    let s1 = spec_index(s);
    if s1.mode.contains(mo::LNM as int) {
        spec_carriage_return(s1)
    } else {
        s1
    }
}

/// The tab stops of a screen `columns` wide: every eighth column.
pub open spec fn default_tabstops(columns: int) -> Set<int> {
    Set::new(|t: int| 8 <= t < columns && t % 8 == 0)
}

/// History queues emptied and the view at the bottom.
pub open spec fn reset_history_model(h: Option<HistoryM>) -> Option<HistoryM> {
    match h {
        Some(h) => Some(HistoryM { top: Seq::empty(), bottom: Seq::empty(), position: h.size, ..h }),
        None => None,
    }
}

/// `reset`: the terminal back to its initial state (saved cursors, size and
/// pending replies are kept).
pub open spec fn spec_reset(s: ScreenM) -> ScreenM {
    ScreenM {
        buffer: Map::empty(),
        margins: None,
        mode: default_modes(),
        title: Seq::empty(),
        icon_name: Seq::empty(),
        charset: 0,
        g0: Charset::Latin1,
        g1: Charset::Vt100Graphics,
        tabstops: default_tabstops(s.columns),
        cursor: home_cursor(min(0, s.columns - 1), min(0, s.lines - 1)),
        saved_columns: None,
        history: reset_history_model(s.history),
        ..dirty_range(s, 0, s.lines)
    }
}

/// A fresh screen, before its first reset.
pub open spec fn blank_screen(columns: int, lines: int, history: Option<HistoryM>) -> ScreenM {
    ScreenM {
        savepoints: Seq::empty(),
        columns,
        lines,
        buffer: Map::empty(),
        dirty: Set::empty(),
        mode: default_modes(),
        margins: None,
        title: Seq::empty(),
        icon_name: Seq::empty(),
        charset: 0,
        g0: Charset::Latin1,
        g1: Charset::Vt100Graphics,
        tabstops: Set::empty(),
        cursor: home_cursor(0, 0),
        saved_columns: None,
        outgoing: Seq::empty(),
        history,
    }
}

/// The text of row `y` from column `x` on, when the previous column held a
/// wide character (`wide`) or not: the stub slot after a wide character is
/// skipped.
pub open spec fn render_from(s: ScreenM, y: int, x: int, wide: bool) -> Seq<char>
    decreases s.columns - x,
{
    if x >= s.columns {
        Seq::empty()
    } else if wide {
        render_from(s, y, x + 1, false)
    } else {
        let d = cell_at(s, x, y).data;
        let first = if d.len() > 0 {
            d[0]
        } else {
            ' '
        };
        d + render_from(s, y, x + 1, spec_wcwidth(first) == 2)
    }
}

/// `display`: the screen as one string per line.
pub open spec fn spec_display(s: ScreenM) -> Seq<Seq<char>> {
    Seq::new(s.lines as nat, |y: int| render_from(s, y, 0, false))
}

/// The first tab stop right of the cursor, else the last column.
pub open spec fn next_tab_column(s: ScreenM) -> int {
    if exists|t: int| #[trigger] s.tabstops.contains(t) && t > s.cursor.x {
        choose|t: int|
            #[trigger] s.tabstops.contains(t) && t > s.cursor.x && forall|u: int|
                #[trigger] s.tabstops.contains(u) && u > s.cursor.x ==> t <= u
    } else {
        s.columns - 1
    }
}

/// `tab`: to the next tab stop, or to the last column when there is none.
pub open spec fn spec_tab(s: ScreenM) -> ScreenM {
    with_x(s, next_tab_column(s))
}

/// `save_cursor`: push the cursor, character sets and the origin and wrap
/// modes.
pub open spec fn spec_save_cursor(s: ScreenM) -> ScreenM {
    ScreenM {
        savepoints: s.savepoints.push(
            SavepointM {
                cursor: s.cursor,
                g0: s.g0,
                g1: s.g1,
                charset: s.charset,
                origin: s.mode.contains(mo::DECOM as int),
                wrap: s.mode.contains(mo::DECAWM as int),
            },
        ),
        ..s
    }
}

/// One step of `insert_lines`: row `y` moves down `c` rows when it exists and
/// stays above the bottom margin, else it is dropped.
pub open spec fn insert_line_step(b: Map<int, LineM>, y: int, c: int, bottom: int) -> Map<int, LineM> {
    if y + c <= bottom && b.contains_key(y) {
        b.remove(y).insert(y + c, b[y])
    } else {
        b.remove(y)
    }
}

/// The steps of `insert_lines` for rows `hi` down to `lo`.
pub open spec fn insert_line_steps(b: Map<int, LineM>, lo: int, hi: int, c: int, bottom: int) -> Map<int, LineM>
    decreases hi - lo + 1,
{
    if lo > hi {
        b
    } else {
        insert_line_step(insert_line_steps(b, lo + 1, hi, c, bottom), lo, c, bottom)
    }
}

/// `insert_lines`: when the cursor is inside the margins, rows from the
/// cursor down move `count` rows down (those pushed past the bottom margin
/// are lost) and the cursor goes to column 0.
pub open spec fn spec_insert_lines(s: ScreenM, count: Option<i64>) -> ScreenM {
    let c = count_or_one(count);
    let m = margins_or_default(s);
    if m.top <= s.cursor.y <= m.bottom {
        spec_carriage_return(
            ScreenM {
                buffer: insert_line_steps(s.buffer, s.cursor.y, m.bottom as int, c, m.bottom as int),
                ..dirty_range(s, s.cursor.y, s.lines)
            },
        )
    } else {
        s
    }
}

/// One step of `delete_lines`: row `y` takes row `y + c` when that is above
/// the bottom margin (and keeps its own when that row is empty), else it is
/// dropped.
pub open spec fn delete_line_step(b: Map<int, LineM>, y: int, c: int, bottom: int) -> Map<int, LineM> {
    if y + c <= bottom {
        if b.contains_key(y + c) {
            b.remove(y + c).insert(y, b[y + c])
        } else {
            b
        }
    } else {
        b.remove(y)
    }
}

/// The steps of `delete_lines` for rows `lo` up to `hi`.
pub open spec fn delete_line_steps(b: Map<int, LineM>, lo: int, hi: int, c: int, bottom: int) -> Map<int, LineM>
    decreases hi - lo + 1,
{
    if lo > hi {
        b
    } else {
        delete_line_step(delete_line_steps(b, lo, hi - 1, c, bottom), hi, c, bottom)
    }
}

/// `delete_lines`: when the cursor is inside the margins, rows below the
/// cursor move up `count` rows and the cursor goes to column 0.
pub open spec fn spec_delete_lines(s: ScreenM, count: Option<i64>) -> ScreenM {
    let c = count_or_one(count);
    let m = margins_or_default(s);
    if m.top <= s.cursor.y <= m.bottom {
        spec_carriage_return(
            ScreenM {
                buffer: delete_line_steps(s.buffer, s.cursor.y, m.bottom as int, c, m.bottom as int),
                ..dirty_range(s, s.cursor.y, s.lines)
            },
        )
    } else {
        s
    }
}

/// `s` with row `y` replaced by `l`.
pub open spec fn with_line(s: ScreenM, y: int, l: LineM) -> ScreenM {
    ScreenM { buffer: s.buffer.insert(y, l), ..s }
}

/// `s` with row `y` marked dirty.
pub open spec fn dirty_row(s: ScreenM, y: int) -> ScreenM {
    ScreenM { dirty: s.dirty.insert(y), ..s }
}

/// One step of `insert_characters`: column `x` moves right `c` columns when it
/// stays on the line, and is cleared.
pub open spec fn insert_char_step(l: LineM, x: int, c: int, columns: int) -> LineM {
    let cells = if x + c <= columns {
        l.cells.insert(x + c, line_get(l, x))
    } else {
        l.cells
    };
    LineM { cells: cells.remove(x), ..l }
}

/// The steps of `insert_characters` for columns `hi` down to `lo`.
pub open spec fn insert_char_steps(l: LineM, lo: int, hi: int, c: int, columns: int) -> LineM
    decreases hi - lo + 1,
{
    if lo > hi {
        l
    } else {
        insert_char_step(insert_char_steps(l, lo + 1, hi, c, columns), lo, c, columns)
    }
}

/// `insert_characters`: columns from the cursor on move `count` right
/// (dropping those pushed past the end); the line is marked dirty.
pub open spec fn spec_insert_characters(s: ScreenM, count: Option<i64>) -> ScreenM {
    let c = count_or_one(count);
    let s1 = dirty_row(s, s.cursor.y);
    with_line(s1, s.cursor.y, insert_char_steps(line_or_new(s1, s.cursor.y), s.cursor.x, s.columns, c, s.columns))
}

/// One step of `delete_characters`: column `x` takes column `x + c` (or the
/// blank character) when that is on the line, else it is cleared.
pub open spec fn delete_char_step(l: LineM, x: int, c: int, columns: int, blank: CharM) -> LineM {
    if x + c <= columns {
        let moved = if l.cells.contains_key(x + c) {
            l.cells[x + c]
        } else {
            blank
        };
        LineM { cells: l.cells.remove(x + c).insert(x, moved), ..l }
    } else {
        LineM { cells: l.cells.remove(x), ..l }
    }
}

/// The steps of `delete_characters` for columns `lo` up to `hi`.
pub open spec fn delete_char_steps(l: LineM, lo: int, hi: int, c: int, columns: int, blank: CharM) -> LineM
    decreases hi - lo + 1,
{
    if lo > hi {
        l
    } else {
        delete_char_step(delete_char_steps(l, lo, hi - 1, c, columns, blank), hi, c, columns, blank)
    }
}

/// `delete_characters`: columns right of the cursor move `count` left; the
/// line is marked dirty.
pub open spec fn spec_delete_characters(s: ScreenM, count: Option<i64>) -> ScreenM {
    let c = count_or_one(count);
    let s1 = dirty_row(s, s.cursor.y);
    with_line(
        s1,
        s.cursor.y,
        delete_char_steps(line_or_new(s1, s.cursor.y), s.cursor.x, s.columns - 1, c, s.columns, default_char(s)),
    )
}

/// `l` with columns `lo..hi` set to `c`.
pub open spec fn fill_line(l: LineM, lo: int, hi: int, c: CharM) -> LineM {
    LineM {
        cells: Map::new(
            |x: int| l.cells.contains_key(x) || lo <= x < hi,
            |x: int|
                if lo <= x < hi {
                    c
                } else {
                    l.cells[x]
                },
        ),
        ..l
    }
}

/// `erase_characters`: `count` columns from the cursor (within the line) take
/// the cursor's attributes; the line is marked dirty.
pub open spec fn spec_erase_characters(s: ScreenM, count: Option<i64>) -> ScreenM {
    let c = count_or_one(count);
    let s1 = dirty_row(s, s.cursor.y);
    let end = min(s.cursor.x + c, s.columns);
    with_line(s1, s.cursor.y, fill_line(line_or_new(s1, s.cursor.y), s.cursor.x, end, s.cursor.attrs))
}

/// `erase_in_line`: from the cursor to the end (0), from the start through
/// the cursor (1) or the whole line (2) take the cursor's attributes; the
/// line is marked dirty whatever `how` is.
pub open spec fn spec_erase_in_line(s: ScreenM, how: i64) -> ScreenM {
    let s1 = dirty_row(s, s.cursor.y);
    if how == 0 || how == 1 || how == 2 {
        let (lo, hi) = if how == 0 {
            (s.cursor.x, s.columns)
        } else if how == 1 {
            (0, s.cursor.x + 1)
        } else {
            (0, s.columns)
        };
        with_line(s1, s.cursor.y, fill_line(line_or_new(s1, s.cursor.y), lo, hi, s.cursor.attrs))
    } else {
        s1
    }
}

/// `l` with every column it holds set to `c`.
pub open spec fn recolor_line(l: LineM, c: CharM) -> LineM {
    LineM { cells: Map::new(|x: int| l.cells.contains_key(x), |x: int| c), ..l }
}

/// The rows `erase_in_display` clears.
pub open spec fn erase_rows(s: ScreenM, how: i64) -> (int, int) {
    if how == 0 {
        (s.cursor.y + 1, s.lines)
    } else if how == 1 {
        (0, s.cursor.y)
    } else if how == 2 || how == 3 {
        (0, s.lines)
    } else {
        (0, 0)
    }
}

/// `erase_in_display`: rows below the cursor (0), above it (1) or all (2, 3)
/// have the columns they hold set to the cursor's attributes; for 0 and 1
/// the cursor's line is erased as `erase_in_line` does; 3 also empties the
/// scrollback.
#[verifier::opaque]
pub open spec fn spec_erase_in_display(s: ScreenM, how: Option<i64>) -> ScreenM {
    let how = match how {
        Some(h) => h,
        None => 0,
    };
    let (lo, hi) = erase_rows(s, how);
    let s1 = dirty_range(s, lo, hi);
    let s2 = ScreenM {
        buffer: Map::new(
            |y: int| s1.buffer.contains_key(y) || lo <= y < hi,
            |y: int|
                if lo <= y < hi {
                    recolor_line(line_or_new(s1, y), s.cursor.attrs)
                } else {
                    s1.buffer[y]
                },
        ),
        ..s1
    };
    let s3 = if how == 0 || how == 1 {
        spec_erase_in_line(s2, how)
    } else {
        s2
    };
    if how == 3 && s3.history is Some {
        ScreenM { history: reset_history_model(s3.history), ..s3 }
    } else {
        s3
    }
}

/// `alignment_display`: every cell of the screen shows `E`, keeping its
/// attributes.
#[verifier::opaque]
pub open spec fn spec_alignment_display(s: ScreenM) -> ScreenM {
    let s1 = dirty_range(s, 0, s.lines);
    ScreenM {
        buffer: Map::new(
            |y: int| s1.buffer.contains_key(y) || 0 <= y < s.lines,
            |y: int|
                if 0 <= y < s.lines {
                    let l = line_or_new(s1, y);
                    LineM {
                        cells: Map::new(
                            |x: int| l.cells.contains_key(x) || 0 <= x < s.columns,
                            |x: int|
                                if 0 <= x < s.columns {
                                    CharM { data: "E"@, ..line_get(l, x) }
                                } else {
                                    l.cells[x]
                                },
                        ),
                        ..l
                    }
                } else {
                    s1.buffer[y]
                },
        ),
        ..s1
    }
}

/// A margin parameter resolved: absent keeps `base`, else the 1-based line
/// clamped into the screen.
pub open spec fn margin_value(v: Option<i64>, base: int, lines: int) -> int {
    match v {
        None => base,
        Some(t) => max(0, min(t - 1, lines - 1)),
    }
}

/// `set_margins`: no parameters clear the margins; otherwise a region of at
/// least two lines is set and the cursor goes home.
pub open spec fn spec_set_margins(s: ScreenM, top: Option<i64>, bottom: Option<i64>) -> ScreenM {
    if (top is None || top == Some(0i64)) && bottom is None {
        ScreenM { margins: None, ..s }
    } else {
        let base = margins_or_default(s);
        let t = margin_value(top, base.top as int, s.lines);
        let b = margin_value(bottom, base.bottom as int, s.lines);
        if b - t >= 1 {
            spec_cursor_position(
                ScreenM { margins: Some(Margins { top: t as i64, bottom: b as i64 }), ..s },
                None,
                None,
            )
        } else {
            s
        }
    }
}

/// `define_charset`: designate the set for `code` as `G0` (`(`) or `G1`
/// (`)`).
pub open spec fn spec_define_charset(s: ScreenM, code: char, mode: char) -> ScreenM {
    match spec_charset_for(code) {
        Some(cs) => if mode == '(' {
            ScreenM { g0: cs, ..s }
        } else if mode == ')' {
            ScreenM { g1: cs, ..s }
        } else {
            s
        },
        None => s,
    }
}

/// `clear_tab_stop`: the stop at the cursor (0) or all stops (3).
pub open spec fn spec_clear_tab_stop(s: ScreenM, how: i64) -> ScreenM {
    if how == 0 {
        ScreenM { tabstops: s.tabstops.remove(s.cursor.x), ..s }
    } else if how == 3 {
        ScreenM { tabstops: Set::empty(), ..s }
    } else {
        s
    }
}

/// What `insert_lines` and `delete_lines` need to stay in `i64`.
pub open spec fn line_count_ok(s: ScreenM, count: Option<i64>) -> bool {
    fits_i64(s.cursor.y + count_or_one(count)) && fits_i64(margins_or_default(s).bottom + count_or_one(count))
}

/// What `insert_characters` and `delete_characters` need to stay in `i64`.
pub open spec fn char_count_ok(s: ScreenM, count: Option<i64>) -> bool {
    fits_i64(s.cursor.x + count_or_one(count)) && fits_i64(s.columns + count_or_one(count))
}

/// The number a mode parameter stands for: private modes are shifted left
/// five bits.
pub open spec fn mode_value(m: i64, private: bool) -> u32 {
    if private {
        (m as u32) << 5u32
    } else {
        m as u32
    }
}

/// The modes a parameter list stands for.
pub open spec fn mode_set(modes: Seq<i64>, private: bool) -> Set<int> {
    Set::new(|v: int| exists|i: int| 0 <= i < modes.len() && v == mode_value(modes[i], private) as int)
}

/// One mode switched on, for the modes whose only other effect is that of
/// origin mode (the cursor goes home).
pub open spec fn spec_set_plain_mode(s: ScreenM, v: u32) -> ScreenM {
    let s1 = ScreenM { mode: s.mode.insert(v as int), ..s };
    if v == mo::DECOM {
        spec_cursor_position(s1, None, None)
    } else {
        s1
    }
}

/// One mode switched off, for the modes whose only other effect is that of
/// origin mode (the cursor goes home).
pub open spec fn spec_reset_plain_mode(s: ScreenM, v: u32) -> ScreenM {
    let s1 = ScreenM { mode: s.mode.remove(v as int), ..s };
    if v == mo::DECOM {
        spec_cursor_position(s1, None, None)
    } else {
        s1
    }
}

/// `restore_cursor`: pop the saved state (restoring character sets, origin
/// and wrap modes, and the cursor, clamped into the margins); with nothing
/// saved, origin mode goes off and the cursor goes home.
#[verifier::opaque]
pub open spec fn spec_restore_cursor(s: ScreenM) -> ScreenM {
    if s.savepoints.len() > 0 {
        let sp = s.savepoints.last();
        let s1 = ScreenM {
            savepoints: s.savepoints.drop_last(),
            g0: sp.g0,
            g1: sp.g1,
            charset: sp.charset,
            ..s
        };
        let s2 = if sp.origin {
            spec_set_plain_mode(s1, mo::DECOM)
        } else {
            s1
        };
        let s3 = if sp.wrap {
            spec_set_plain_mode(s2, mo::DECAWM)
        } else {
            s2
        };
        spec_ensure_vbounds(spec_ensure_hbounds(ScreenM { cursor: sp.cursor, ..s3 }), Some(true))
    } else {
        spec_cursor_position(spec_reset_plain_mode(s, mo::DECOM), None, None)
    }
}

/// A size parameter: absent or zero keeps the current size.
pub open spec fn size_or(v: Option<i64>, current: int) -> int {
    match v {
        Some(x) => if x != 0 {
            x as int
        } else {
            current
        },
        None => current,
    }
}

/// `l` without the columns `lo..hi`.
pub open spec fn trim_line(l: LineM, lo: int, hi: int) -> LineM {
    LineM { cells: Map::new(|x: int| l.cells.contains_key(x) && !(lo <= x < hi), |x: int| l.cells[x]), ..l }
}

/// `l` without the columns after `c`.
pub open spec fn cut_after(l: LineM, c: int) -> LineM {
    LineM { cells: Map::new(|x: int| l.cells.contains_key(x) && x <= c, |x: int| l.cells[x]), ..l }
}

/// `resize`: on fewer lines the top lines are deleted (the cursor kept);
/// on fewer columns the cut columns are dropped; the margins are cleared.
#[verifier::opaque]
pub open spec fn spec_resize(s: ScreenM, lines: Option<i64>, columns: Option<i64>) -> ScreenM {
    let l = size_or(lines, s.lines);
    let c = size_or(columns, s.columns);
    if l == s.lines && c == s.columns {
        s
    } else {
        let s1 = dirty_range(s, 0, l);
        let s2 = if l < s.lines {
            spec_drop_top_lines(s1, s.lines - l)
        } else {
            s1
        };
        let s3 = if c < s.columns {
            ScreenM { buffer: s2.buffer.map_values(|ln: LineM| trim_line(ln, c, s.columns)), ..s2 }
        } else {
            s2
        };
        ScreenM { lines: l, columns: c, margins: None, ..s3 }
    }
}

/// Every line of `b` given default `dc` and every held cell's reverse flag
/// set to `flag`.
pub open spec fn set_reverse_all(b: Map<int, LineM>, dc: CharM, flag: bool) -> Map<int, LineM> {
    b.map_values(
        |l: LineM|
            LineM { cells: l.cells.map_values(|c: CharM| CharM { reverse: flag, ..c }), default: dc },
    )
}

/// The screen-wide reverse video switched to `flag`: lines, their defaults
/// and the cursor's attributes follow.
#[verifier::opaque]
pub open spec fn apply_screen_reverse(s: ScreenM, flag: bool) -> ScreenM {
    ScreenM {
        buffer: set_reverse_all(s.buffer, default_char(s), flag),
        cursor: CursorM { attrs: CharM { reverse: flag, ..s.cursor.attrs }, ..s.cursor },
        ..s
    }
}

/// Column mode switched on: the width is saved, the screen becomes 132
/// columns wide, is cleared, and the cursor goes home.
#[verifier::opaque]
pub open spec fn spec_enter_column_mode(s: ScreenM) -> ScreenM {
    spec_cursor_position(
        spec_erase_in_display(
            spec_resize(ScreenM { saved_columns: Some(s.columns), ..s }, None, Some(132i64)),
            Some(2i64),
        ),
        None,
        None,
    )
}

/// Column mode switched off: a 132-column screen goes back to the saved
/// width; the screen is cleared and the cursor goes home.
#[verifier::opaque]
pub open spec fn spec_leave_column_mode(s: ScreenM) -> ScreenM {
    let s1 = if s.columns == 132 && s.saved_columns is Some {
        ScreenM { saved_columns: None, ..spec_resize(s, None, Some(s.saved_columns->Some_0 as i64)) }
    } else {
        s
    };
    spec_cursor_position(spec_erase_in_display(s1, Some(2i64)), None, None)
}

/// The top `n` lines deleted: the cursor is saved, moved home for the
/// deletion, and then restored, which clamps it to the screen.
#[verifier::opaque]
pub open spec fn spec_drop_top_lines(s: ScreenM, n: int) -> ScreenM {
    spec_restore_cursor(
        spec_delete_lines(spec_cursor_position(spec_save_cursor(s), Some(0i64), Some(0i64)), Some(n as i64)),
    )
}

/// `set_mode`: switch modes on. Column mode widens to 132 columns (saving
/// the width), clears the screen and homes the cursor; origin mode homes the
/// cursor; screen mode reverses the screen; cursor mode shows the cursor.
#[verifier::opaque]
pub open spec fn spec_set_mode(s: ScreenM, modes: Seq<i64>, private: bool) -> ScreenM {
    let ms = mode_set(modes, private);
    let s1 = if private && ms.contains(mo::DECSCNM as int) {
        dirty_range(s, 0, s.lines)
    } else {
        s
    };
    let s2 = ScreenM { mode: s1.mode.union(ms), ..s1 };
    let s3 = if ms.contains(mo::DECCOLM as int) {
        spec_enter_column_mode(s2)
    } else {
        s2
    };
    let s4 = if ms.contains(mo::DECOM as int) {
        spec_cursor_position(s3, None, None)
    } else {
        s3
    };
    let s5 = if ms.contains(mo::DECSCNM as int) {
        apply_screen_reverse(s4, true)
    } else {
        s4
    };
    if ms.contains(mo::DECTCEM as int) {
        ScreenM { cursor: CursorM { hidden: false, ..s5.cursor }, ..s5 }
    } else {
        s5
    }
}

/// `reset_mode`: switch modes off. Column mode goes back to the saved width
/// (when the screen is 132 wide), clears the screen and homes the cursor;
/// origin mode homes the cursor; screen mode ends reverse video; cursor mode
/// hides the cursor.
#[verifier::opaque]
pub open spec fn spec_reset_mode(s: ScreenM, modes: Seq<i64>, private: bool) -> ScreenM {
    let ms = mode_set(modes, private);
    let s1 = if private && ms.contains(mo::DECSCNM as int) {
        dirty_range(s, 0, s.lines)
    } else {
        s
    };
    let s2 = ScreenM { mode: s1.mode.difference(ms), ..s1 };
    let s3 = if ms.contains(mo::DECCOLM as int) {
        spec_leave_column_mode(s2)
    } else {
        s2
    };
    let s4 = if ms.contains(mo::DECOM as int) {
        spec_cursor_position(s3, None, None)
    } else {
        s3
    };
    let s5 = if ms.contains(mo::DECSCNM as int) {
        apply_screen_reverse(s4, false)
    } else {
        s4
    };
    if ms.contains(mo::DECTCEM as int) {
        ScreenM { cursor: CursorM { hidden: true, ..s5.cursor }, ..s5 }
    } else {
        s5
    }
}

/// What `resize` accepts: sizes in `0..=DIM_MAX`, the same range a screen
/// is created with. The screen model keeps its width and height in this
/// range as part of its invariant (every walk over rows and columns and
/// every count added to a coordinate is bounded by it); a negative height
/// would also leave nothing that `display` could render.
pub open spec fn size_arg_ok(v: Option<i64>) -> bool {
    v matches Some(x) ==> 0 <= x <= DIM_MAX
}

/// The cursor moved `w` columns right, stopping past the last column.
pub open spec fn advance_cursor(s: ScreenM, w: int) -> ScreenM {
    with_x(s, min(s.cursor.x + w, s.columns))
}

/// A combining character folded into the character at `(x, y)`: the pair is
/// normalized (NFC).
pub open spec fn combine_at(s: ScreenM, x: int, y: int, ch: char) -> ScreenM {
    let last = line_get(line_or_new(s, y), x);
    with_cell(s, x, y, CharM { data: nfc_of(last.data.push(ch)), ..last })
}

/// Drawing one character, translated through `map`: the screen after it
/// and whether drawing goes on (it stops at a character that is neither
/// narrow, wide nor combining). At the last column the cursor first wraps
/// (under auto-wrap) or steps back; under insert mode the line makes room.
pub open spec fn draw_step(s: ScreenM, map: Charset, raw: char) -> (ScreenM, bool) {
    let ch = spec_translate(map, raw);
    let w = spec_wcwidth(ch);
    draw_put(draw_make_room(s, w), ch, w)
}

/// Before a character of width `w` is drawn: at the last column the cursor
/// wraps (under auto-wrap) or steps back; under insert mode the line makes
/// room.
#[verifier::opaque]
pub open spec fn draw_make_room(s: ScreenM, w: int) -> ScreenM {
    let s1 = if s.cursor.x == s.columns {
        if s.mode.contains(mo::DECAWM as int) {
            spec_linefeed(spec_carriage_return(dirty_row(s, s.cursor.y)))
        } else if w > 0 {
            with_x(s, s.cursor.x - w)
        } else {
            s
        }
    } else {
        s
    };
    if s1.mode.contains(mo::IRM as int) && w > 0 {
        spec_insert_characters(s1, Some(w as i64))
    } else {
        s1
    }
}

/// Character `ch` of width `w` put at the cursor: narrow and wide characters
/// take the cursor's attributes and advance it (a wide one also fills the
/// next column with an empty stub), a combining one joins the previous
/// character; any other stops the drawing.
#[verifier::opaque]
pub open spec fn draw_put(s2: ScreenM, ch: char, w: int) -> (ScreenM, bool) {
    let cx = s2.cursor.x;
    let cy = s2.cursor.y;
    let attrs = s2.cursor.attrs;
    if w == 1 {
        (advance_cursor(with_cell(s2, cx, cy, CharM { data: seq![ch], ..attrs }), w), true)
    } else if w == 2 {
        let s3 = with_cell(s2, cx, cy, CharM { data: seq![ch], ..attrs });
        let s4 = if cx + 1 < s2.columns {
            with_cell(s3, cx + 1, cy, CharM { data: Seq::empty(), ..attrs })
        } else {
            s3
        };
        (advance_cursor(s4, w), true)
    } else if w == 0 && spec_combining(ch) {
        if cx != 0 {
            (combine_at(s2, cx - 1, cy, ch), true)
        } else if cy != 0 {
            (combine_at(s2, s2.columns - 1, cy - 1, ch), true)
        } else {
            (s2, true)
        }
    } else {
        (s2, false)
    }
}

/// Drawing characters one after another until one stops the drawing.
pub open spec fn draw_chars(s: ScreenM, map: Charset, chars: Seq<char>) -> ScreenM
    decreases chars.len(),
{
    if chars.len() == 0 {
        s
    } else {
        let (s1, go) = draw_step(s, map, chars[0]);
        if go {
            draw_chars(s1, map, chars.drop_first())
        } else {
            s1
        }
    }
}

/// The character set drawing goes through: G1 when shifted out, else G0.
pub open spec fn active_charset(s: ScreenM) -> Charset {
    if s.charset != 0 {
        s.g1
    } else {
        s.g0
    }
}

/// Whether every character of `chars`, as `map` translates it, is at most
/// two columns wide or no wider than `columns`.
pub open spec fn widths_fit(map: Charset, chars: Seq<char>, columns: int) -> bool {
    forall|i: int|
        0 <= i < chars.len() ==> #[trigger] spec_wcwidth(spec_translate(map, chars[i])) <= max(
            2,
            columns,
        )
}

/// `draw`: the characters drawn through the active character set, then the
/// cursor's line marked dirty.
pub open spec fn spec_draw(s: ScreenM, data: Seq<char>) -> ScreenM {
    let s1 = draw_chars(s, active_charset(s), data);
    dirty_row(s1, s1.cursor.y)
}

/// `c` with a text style switched on or off.
pub open spec fn with_text_attr(c: CharM, a: g::TextAttr, on: bool) -> CharM {
    match a {
        g::TextAttr::Bold => CharM { bold: on, ..c },
        g::TextAttr::Italics => CharM { italics: on, ..c },
        g::TextAttr::Underscore => CharM { underscore: on, ..c },
        g::TextAttr::Blink => CharM { blink: on, ..c },
        g::TextAttr::Reverse => CharM { reverse: on, ..c },
        g::TextAttr::Strikethrough => CharM { strikethrough: on, ..c },
    }
}

/// `c` with its foreground (`fg`) or background color set.
pub open spec fn with_color(c: CharM, fg: bool, color: Seq<char>) -> CharM {
    if fg {
        CharM { fg: color, ..c }
    } else {
        CharM { bg: color, ..c }
    }
}

/// Entry `m` of the 256-color table as `rrggbb`.
pub open spec fn palette_hex(m: int) -> Seq<char> {
    let (r, gg, b) = palette_rgb(m);
    pad2(hex_nat(r as nat)) + pad2(hex_nat(gg as nat)) + pad2(hex_nat(b as nat))
}

/// A true color as `rrggbb`, each component formatted as `{:02x}` formats an
/// `i64` (a negative one in two's complement).
pub open spec fn rgb_hex(r: i64, gg: i64, b: i64) -> Seq<char> {
    pad2(hex_nat((r as u64) as nat)) + pad2(hex_nat((gg as u64) as nat)) + pad2(hex_nat((b as u64) as nat))
}

/// The attributes after SGR parameters `attrs[i..]` are applied to `work`;
/// `dc` is the screen's default character.
pub open spec fn sgr_from(dc: CharM, attrs: Seq<i64>, i: int, work: CharM) -> CharM
    decreases attrs.len() - i,
{
    if i < 0 || i >= attrs.len() {
        work
    } else {
        let attr = attrs[i];
        let i1 = i + 1;
        if attr == 0 {
            sgr_from(dc, attrs, i1, dc)
        } else if spec_fg_ansi(attr) is Some {
            sgr_from(dc, attrs, i1, CharM { fg: spec_fg_ansi(attr)->Some_0, ..work })
        } else if spec_bg_ansi(attr) is Some {
            sgr_from(dc, attrs, i1, CharM { bg: spec_bg_ansi(attr)->Some_0, ..work })
        } else if g::spec_text_attr(attr) is Some {
            let (a, on) = g::spec_text_attr(attr)->Some_0;
            sgr_from(dc, attrs, i1, with_text_attr(work, a, on))
        } else if spec_fg_aixterm(attr) is Some {
            sgr_from(dc, attrs, i1, CharM { fg: spec_fg_aixterm(attr)->Some_0, ..work })
        } else if spec_bg_aixterm(attr) is Some {
            sgr_from(dc, attrs, i1, CharM { bg: spec_bg_aixterm(attr)->Some_0, ..work })
        } else if attr == g::FG_256 || attr == g::BG_256 {
            let is_fg = attr == g::FG_256;
            if i1 >= attrs.len() {
                work
            } else {
                let n = attrs[i1];
                let i2 = i1 + 1;
                if n == 5 {
                    if i2 >= attrs.len() {
                        work
                    } else {
                        let m = attrs[i2];
                        let w2 = if 0 <= m < 256 {
                            with_color(work, is_fg, palette_hex(m as int))
                        } else {
                            work
                        };
                        sgr_from(dc, attrs, i2 + 1, w2)
                    }
                } else if n == 2 {
                    if i2 + 2 >= attrs.len() {
                        sgr_from(dc, attrs, i2, work)
                    } else {
                        sgr_from(
                            dc,
                            attrs,
                            i2 + 3,
                            with_color(work, is_fg, rgb_hex(attrs[i2], attrs[i2 + 1], attrs[i2 + 2])),
                        )
                    }
                } else {
                    sgr_from(dc, attrs, i2, work)
                }
            }
        } else {
            sgr_from(dc, attrs, i1, work)
        }
    }
}

/// `select_graphic_rendition`: no parameters (or a lone 0) reset the
/// cursor's attributes to the default; otherwise each parameter applies in
/// turn: 0 resets, colors and styles set, 38/48 with 5;n pick from the
/// 256-color table and with 2;r;g;b give a true color.
pub open spec fn spec_sgr(s: ScreenM, attrs: Seq<i64>) -> ScreenM {
    let dc = default_char(s);
    let a = if attrs.len() == 0 || attrs == seq![0i64] {
        dc
    } else {
        sgr_from(dc, attrs, 0, s.cursor.attrs)
    };
    ScreenM { cursor: CursorM { attrs: a, ..s.cursor }, ..s }
}

/// The reply to a primary device attributes request (VT102).
pub open spec fn da_reply() -> Seq<char> {
    seq!['\u{1b}', '[', '?', '6', 'c']
}

/// `report_device_attributes`: a primary request (mode 0, not private) is
/// answered.
pub open spec fn spec_report_device_attributes(s: ScreenM, mode: i64, private: bool) -> ScreenM {
    if mode == 0 && !private {
        ScreenM { outgoing: s.outgoing + da_reply(), ..s }
    } else {
        s
    }
}

/// `report_device_status`: status (5) is answered "OK"; cursor position (6)
/// with the 1-based line (relative to the top margin under origin mode) and
/// column.
pub open spec fn spec_report_device_status(s: ScreenM, mode: i64) -> ScreenM {
    if mode == 5 {
        ScreenM { outgoing: s.outgoing + seq!['\u{1b}', '[', '0', 'n'], ..s }
    } else if mode == 6 {
        let x = s.cursor.x + 1;
        let y = if s.mode.contains(mo::DECOM as int) && s.margins is Some {
            s.cursor.y + 1 - s.margins->Some_0.top
        } else {
            s.cursor.y + 1
        };
        ScreenM {
            outgoing: s.outgoing + seq!['\u{1b}', '['] + dec_int(y) + seq![';'] + dec_int(x) + seq!['R'],
            ..s
        }
    } else {
        s
    }
}

impl Screen {
    /// The screen's internal invariant: its containers are well formed and
    /// its model within bounds.
    pub closed spec fn wf(&self) -> bool {
        &&& self.buffer.wf()
        &&& self.dirty.wf()
        &&& self.mode.wf()
        &&& self.tabstops.wf()
        &&& (self.history matches Some(h) ==> h.wf())
        &&& model_ok(self@)
    }

    /// Move the cursor to column 0.
    pub fn carriage_return(&mut self)
        requires
            old(self).wf(),
        ensures
            final(self).wf(),
            final(self)@ == spec_carriage_return(old(self)@),
    {
        self.cursor.x = 0;
    }

    /// The column `x` clamped into the screen.
    fn clamp_h(&self, x: i64) -> (r: i64)
        requires
            self.wf(),
        ensures
            r == min(max(0, x as int), self.columns - 1),
    {
        let x = if x < 0 {
            0
        } else {
            x
        };
        if x < self.columns - 1 {
            x
        } else {
            self.columns - 1
        }
    }

    /// The line `y` clamped as `ensure_vbounds` clamps the cursor.
    fn clamp_v(&self, y: i64, use_margins: Option<bool>) -> (r: i64)
        requires
            self.wf(),
        ensures
            r == spec_ensure_vbounds(with_y(self@, y as int), use_margins).cursor.y,
            -1 <= r < self.lines,
    {
        let origin = self.mode.contains(mo::DECOM as i64);
        let (top, bottom) = match self.margins {
            Some(m) => if use_margins == Some(true) || origin {
                (m.top, m.bottom)
            } else {
                (0, self.lines - 1)
            },
            None => (0, self.lines - 1),
        };
        let y = if y < top {
            top
        } else {
            y
        };
        if y < bottom {
            y
        } else {
            bottom
        }
    }

    /// Clamp the cursor within horizontal bounds.
    pub fn ensure_hbounds(&mut self)
        requires
            old(self).wf(),
        ensures
            final(self).wf(),
            final(self)@ == spec_ensure_hbounds(old(self)@),
    {
        self.cursor.x = self.clamp_h(self.cursor.x);
    }

    /// Clamp the cursor within vertical bounds: the margins when asked (or
    /// under origin mode), else the screen.
    pub fn ensure_vbounds(&mut self, use_margins: Option<bool>)
        requires
            old(self).wf(),
        ensures
            final(self).wf(),
            final(self)@ == spec_ensure_vbounds(old(self)@, use_margins),
    {
        assert(with_y(self@, self.cursor.y as int) == self@);
        self.cursor.y = self.clamp_v(self.cursor.y, use_margins);
    }

    /// Move cursor up, stopping at the top margin.
    pub fn cursor_up(&mut self, count: Option<i64>)
        requires
            old(self).wf(),
            fits_i64(old(self)@.cursor.y - count_or_one(count)),
            coord_ok(spec_cursor_up(old(self)@, count).cursor.y),
        ensures
            final(self).wf(),
            final(self)@ == spec_cursor_up(old(self)@, count),
    {
        let top = match self.margins {
            Some(m) => m.top,
            None => 0,
        };
        let y = self.cursor.y - count_or_one_exec(count);
        self.cursor.y = if y > top {
            y
        } else {
            top
        };
    }

    /// Move cursor up to column 1.
    pub fn cursor_up1(&mut self, count: Option<i64>)
        requires
            old(self).wf(),
            fits_i64(old(self)@.cursor.y - count_or_one(count)),
            coord_ok(spec_cursor_up(old(self)@, count).cursor.y),
        ensures
            final(self).wf(),
            final(self)@ == spec_carriage_return(spec_cursor_up(old(self)@, count)),
    {
        self.cursor_up(count);
        self.carriage_return();
    }

    /// Move cursor down, stopping at the bottom margin.
    pub fn cursor_down(&mut self, count: Option<i64>)
        requires
            old(self).wf(),
            fits_i64(old(self)@.cursor.y + count_or_one(count)),
            coord_ok(spec_cursor_down(old(self)@, count).cursor.y),
        ensures
            final(self).wf(),
            final(self)@ == spec_cursor_down(old(self)@, count),
    {
        let bottom = match self.margins {
            Some(m) => m.bottom,
            None => self.lines - 1,
        };
        let y = self.cursor.y + count_or_one_exec(count);
        self.cursor.y = if y < bottom {
            y
        } else {
            bottom
        };
    }

    /// Move cursor down to column 1.
    pub fn cursor_down1(&mut self, count: Option<i64>)
        requires
            old(self).wf(),
            fits_i64(old(self)@.cursor.y + count_or_one(count)),
            coord_ok(spec_cursor_down(old(self)@, count).cursor.y),
        ensures
            final(self).wf(),
            final(self)@ == spec_carriage_return(spec_cursor_down(old(self)@, count)),
    {
        self.cursor_down(count);
        self.carriage_return();
    }

    /// Move cursor left, clamped into the screen.
    pub fn cursor_back(&mut self, count: Option<i64>)
        requires
            old(self).wf(),
            fits_i64(old(self)@.cursor.x - count_or_one(count)),
        ensures
            final(self).wf(),
            final(self)@ == spec_cursor_back(old(self)@, count),
    {
        let x = if self.cursor.x == self.columns {
            self.cursor.x - 1
        } else {
            self.cursor.x
        };
        let c = count_or_one_exec(count);
        let x = if c < 0 {
            x - c
        } else if x - c < 0 {
            0
        } else {
            x - c
        };
        self.cursor.x = self.clamp_h(x);
    }

    /// Move cursor right, clamped into the screen.
    pub fn cursor_forward(&mut self, count: Option<i64>)
        requires
            old(self).wf(),
            fits_i64(old(self)@.cursor.x + count_or_one(count)),
        ensures
            final(self).wf(),
            final(self)@ == spec_cursor_forward(old(self)@, count),
    {
        self.cursor.x = self.clamp_h(self.cursor.x + count_or_one_exec(count));
    }

    /// Move cursor to a 1-based `(line, column)`.
    pub fn cursor_position(&mut self, line: Option<i64>, column: Option<i64>)
        requires
            old(self).wf(),
            cursor_position_ok(line, column),
        ensures
            final(self).wf(),
            final(self)@ == spec_cursor_position(old(self)@, line, column),
    {
        let column = count_or_one_exec(column) - 1;
        let mut line = count_or_one_exec(line) - 1;
        if let Some(m) = self.margins {
            if self.mode.contains(mo::DECOM as i64) {
                line = line + m.top;
                if !(m.top <= line && line <= m.bottom) {
                    return;
                }
            }
        }
        let x = self.clamp_h(column);
        let ghost s1 = spec_ensure_hbounds(with_y(with_x(self@, column as int), line as int));
        assert(with_y(s1, line as int) =~= s1);
        let y = self.clamp_v(line, None);
        self.cursor.x = x;
        self.cursor.y = y;
    }

    /// Move cursor to a 1-based column.
    pub fn cursor_to_column(&mut self, column: Option<i64>)
        requires
            old(self).wf(),
            column != Some(i64::MIN),
        ensures
            final(self).wf(),
            final(self)@ == spec_cursor_to_column(old(self)@, column),
    {
        self.cursor.x = self.clamp_h(count_or_one_exec(column) - 1);
    }

    /// Move cursor to a 1-based line (counted from the top margin under
    /// origin mode).
    pub fn cursor_to_line(&mut self, line: Option<i64>)
        requires
            old(self).wf(),
            cursor_position_ok(line, None),
        ensures
            final(self).wf(),
            final(self)@ == spec_cursor_to_line(old(self)@, line),
    {
        let mut y = count_or_one_exec(line) - 1;
        if self.mode.contains(mo::DECOM as i64) {
            if let Some(m) = self.margins {
                y = y + m.top;
            }
        }
        self.cursor.y = self.clamp_v(y, None);
    }
}

impl History {
    fn push_top(&mut self, line: Line)
        requires
            old(self).wf(),
        ensures
            final(self).wf(),
            final(self)@ == (HistoryM { top: keep_last(old(self)@.top.push(line@), old(self)@.maxlen), ..old(self)@ }),
    {
        let ghost l = line@;
        self.top.push(line);
        assert(self.top@.map_values(|l: Line| l@) =~= old(self)@.top.push(l));
        while self.top.len() > self.maxlen
            invariant
                self.top@.len() <= old(self).top@.len() + 1,
                self.top@.len() == old(self).top@.len() + 1 || self.top@.len() == self.maxlen,
                self.maxlen == old(self).maxlen,
                self.bottom == old(self).bottom,
                self.ratio_num == old(self).ratio_num,
                self.ratio_den == old(self).ratio_den,
                self.size == old(self).size,
                self.position == old(self).position,
                old(self).top@.len() <= old(self).maxlen,
                self.top@.map_values(|l: Line| l@) == keep_last(old(self)@.top.push(l), self.top@.len() as int),
            decreases self.top@.len(),
        {
            let ghost t = self.top@.map_values(|l: Line| l@);
            self.top.remove(0);
            assert(self.top@.map_values(|l: Line| l@) =~= t.subrange(1, t.len() as int));
            assert(keep_last(old(self)@.top.push(l), self.top@.len() as int) =~= t.subrange(1, t.len() as int));
        }
        assert(keep_last(old(self)@.top.push(l), self.top@.len() as int) =~= keep_last(old(self)@.top.push(l), self.maxlen as int));
        assert(self@ =~= HistoryM { top: keep_last(old(self)@.top.push(l), old(self)@.maxlen), ..old(self)@ });
    }

    fn push_bottom_back(&mut self, line: Line)
        requires
            old(self).wf(),
        ensures
            final(self).wf(),
            final(self)@ == (HistoryM { bottom: keep_last(old(self)@.bottom.push(line@), old(self)@.maxlen), ..old(self)@ }),
    {
        let ghost l = line@;
        self.bottom.push(line);
        assert(self.bottom@.map_values(|l: Line| l@) =~= old(self)@.bottom.push(l));
        while self.bottom.len() > self.maxlen
            invariant
                self.bottom@.len() <= old(self).bottom@.len() + 1,
                self.bottom@.len() == old(self).bottom@.len() + 1 || self.bottom@.len() == self.maxlen,
                self.maxlen == old(self).maxlen,
                self.top == old(self).top,
                self.ratio_num == old(self).ratio_num,
                self.ratio_den == old(self).ratio_den,
                self.size == old(self).size,
                self.position == old(self).position,
                old(self).bottom@.len() <= old(self).maxlen,
                self.bottom@.map_values(|l: Line| l@) == keep_last(old(self)@.bottom.push(l), self.bottom@.len() as int),
            decreases self.bottom@.len(),
        {
            let ghost t = self.bottom@.map_values(|l: Line| l@);
            self.bottom.remove(0);
            assert(self.bottom@.map_values(|l: Line| l@) =~= t.subrange(1, t.len() as int));
            assert(keep_last(old(self)@.bottom.push(l), self.bottom@.len() as int) =~= t.subrange(1, t.len() as int));
        }
        assert(keep_last(old(self)@.bottom.push(l), self.bottom@.len() as int) =~= keep_last(old(self)@.bottom.push(l), self.maxlen as int));
        assert(self@ =~= HistoryM { bottom: keep_last(old(self)@.bottom.push(l), old(self)@.maxlen), ..old(self)@ });
    }

    fn push_bottom_front(&mut self, line: Line)
        requires
            old(self).wf(),
        ensures
            final(self).wf(),
            final(self)@ == (HistoryM { bottom: keep_first(seq![line@] + old(self)@.bottom, old(self)@.maxlen), ..old(self)@ }),
    {
        let ghost l = line@;
        self.bottom.insert(0, line);
        assert(self.bottom@.map_values(|l: Line| l@) =~= seq![l] + old(self)@.bottom);
        while self.bottom.len() > self.maxlen
            invariant
                self.bottom@.len() <= old(self).bottom@.len() + 1,
                self.bottom@.len() == old(self).bottom@.len() + 1 || self.bottom@.len() == self.maxlen,
                self.maxlen == old(self).maxlen,
                self.top == old(self).top,
                self.ratio_num == old(self).ratio_num,
                self.ratio_den == old(self).ratio_den,
                self.size == old(self).size,
                self.position == old(self).position,
                old(self).bottom@.len() <= old(self).maxlen,
                self.bottom@.map_values(|l: Line| l@) == keep_first(seq![l] + old(self)@.bottom, self.bottom@.len() as int),
            decreases self.bottom@.len(),
        {
            let ghost t = self.bottom@.map_values(|l: Line| l@);
            self.bottom.pop();
            assert(self.bottom@.map_values(|l: Line| l@) =~= t.subrange(0, t.len() - 1));
            assert(keep_first(seq![l] + old(self)@.bottom, self.bottom@.len() as int) =~= t.subrange(0, t.len() - 1));
        }
        assert(keep_first(seq![l] + old(self)@.bottom, self.bottom@.len() as int) =~= keep_first(seq![l] + old(self)@.bottom, self.maxlen as int));
        assert(self@ =~= HistoryM { bottom: keep_first(seq![l] + old(self)@.bottom, old(self)@.maxlen), ..old(self)@ });
    }
}

impl Screen {
    /// An empty character with default colors, reversed under `DECSCNM`.
    fn default_char(&self) -> (c: Char)
        requires
            self.wf(),
        ensures
            c@ == default_char(self@),
    {
        let mut c = Char::new(" ");
        c.reverse = self.mode.contains(mo::DECSCNM as i64);
        c
    }

    /// The scroll margins, or the whole screen when none are set.
    fn margins_or_default(&self) -> (m: Margins)
        requires
            self.wf(),
        ensures
            m == margins_or_default(self@),
    {
        match self.margins {
            Some(m) => m,
            None => Margins { top: 0, bottom: self.lines - 1 },
        }
    }

    /// Removes row `y` from the buffer and returns it, or a fresh row.
    fn take_line(&mut self, y: i64) -> (l: Line)
        requires
            old(self).wf(),
        ensures
            final(self).wf(),
            final(self)@ == (ScreenM { buffer: old(self)@.buffer.remove(y as int), ..old(self)@ }),
            l@ == line_or_new(old(self)@, y as int),
    {
        let d = self.default_char();
        match self.buffer.remove(y) {
            Some(l) => l,
            None => Line::new(d),
        }
    }

    /// Stores `l` as row `y`.
    fn put_line(&mut self, y: i64, l: Line)
        requires
            old(self).wf(),
        ensures
            final(self).wf(),
            final(self)@ == (ScreenM { buffer: old(self)@.buffer.insert(y as int, l@), ..old(self)@ }),
    {
        self.buffer.insert(y, l);
    }

    /// Writes `c` at `(x, y)`.
    fn set_cell(&mut self, x: i64, y: i64, c: Char)
        requires
            old(self).wf(),
        ensures
            final(self).wf(),
            final(self)@ == with_cell(old(self)@, x as int, y as int, c@),
            final(self)@ == (ScreenM { buffer: final(self)@.buffer, ..old(self)@ }),
    {
        proof {
            reveal(with_cell);
        }
        let l = self.take_line(y);
        self.put_line(y, l.with(x, c));
        assert(self@ =~= with_cell(old(self)@, x as int, y as int, c@));
    }

    /// The character at `(x, y)`, the default for empty cells.
    pub fn cell(&self, x: i64, y: i64) -> (c: Char)
        requires
            self.wf(),
        ensures
            c@ == cell_at(self@, x as int, y as int),
    {
        match self.buffer.get(y) {
            Some(l) => l.get(x),
            None => self.default_char(),
        }
    }

    /// Screen contents as one string per line; the slot after a wide
    /// character renders as nothing.
    pub fn display(&self) -> (out: Vec<String>)
        requires
            self.wf(),
        ensures
            out@.len() == self@.lines,
            forall|y: int| 0 <= y < out@.len() ==> (#[trigger] out@[y])@ == spec_display(self@)[y],
    {
        let mut out: Vec<String> = Vec::new();
        let mut y: i64 = 0;
        while y < self.lines
            invariant
                self.wf(),
                0 <= y <= self.lines,
                out@.len() == y,
                forall|j: int| 0 <= j < y ==> (#[trigger] out@[j])@ == render_from(self@, j, 0, false),
            decreases self.lines - y,
        {
            let mut line = String::new();
            let mut wide = false;
            let mut x: i64 = 0;
            while x < self.columns
                invariant
                    self.wf(),
                    0 <= y < self.lines,
                    0 <= x <= self.columns,
                    line@ + render_from(self@, y as int, x as int, wide) == render_from(self@, y as int, 0, false),
                decreases self.columns - x,
            {
                if wide {
                    wide = false;
                    x = x + 1;
                } else {
                    let ch = self.cell(x, y);
                    let d = str_chars(ch.data.as_str());
                    let first = if d.len() > 0 {
                        d[0]
                    } else {
                        ' '
                    };
                    wide = wcwidth(first) == 2;
                    let ghost before = line@;
                    push_chars(&mut line, d.as_slice());
                    assert(before + render_from(self@, y as int, x as int, false) =~= line@ + render_from(self@, y as int, x + 1, wide));
                    x = x + 1;
                }
            }
            assert(render_from(self@, y as int, x as int, wide) =~= Seq::<char>::empty());
            assert(line@ =~= render_from(self@, y as int, 0, false));
            out.push(line);
            y = y + 1;
        }
        out
    }

    /// Create a plain screen of `columns` x `lines`.
    pub fn new(columns: i64, lines: i64) -> (s: Screen)
        requires
            0 <= columns <= DIM_MAX,
            0 <= lines <= DIM_MAX,
        ensures
            s.wf(),
            s@ == spec_reset(blank_screen(columns as int, lines as int, None)),
    {
        Self::build(columns, lines, None)
    }

    /// Create a screen with `history` lines of scrollback; paging moves
    /// `ratio_num / ratio_den` of the screen at a time.
    pub fn with_history(
        columns: i64,
        lines: i64,
        history: usize,
        ratio_num: u32,
        ratio_den: u32,
    ) -> (s: Screen)
        requires
            0 <= columns <= DIM_MAX,
            0 <= lines <= DIM_MAX,
            history <= DIM_MAX,
            ratio_den > 0,
        ensures
            s.wf(),
            s@ == spec_reset(
                blank_screen(
                    columns as int,
                    lines as int,
                    Some(
                        HistoryM {
                            top: Seq::empty(),
                            bottom: Seq::empty(),
                            ratio_num: ratio_num as int,
                            ratio_den: ratio_den as int,
                            size: history as int,
                            position: history as int,
                            maxlen: history as int,
                        },
                    ),
                ),
            ),
    {
        let hist = History {
            top: Vec::new(),
            bottom: Vec::new(),
            ratio_num,
            ratio_den,
            size: history,
            position: history,
            maxlen: history,
        };
        assert(hist@.top =~= Seq::<LineM>::empty());
        assert(hist@.bottom =~= Seq::<LineM>::empty());
        Self::build(columns, lines, Some(hist))
    }

    /// Change the fraction of the screen one page moves to
    /// `ratio_num / ratio_den`; a screen without history is left as it is.
    /// While the view is scrolled back a page must move at least one row.
    pub fn set_page_ratio(&mut self, ratio_num: u32, ratio_den: u32)
        requires
            old(self).wf(),
            ratio_den > 0,
            ratio_num > 0 || !paged_back(old(self)@),
        ensures
            final(self).wf(),
            final(self)@ == spec_set_page_ratio(old(self)@, ratio_num as int, ratio_den as int),
    {
        match &mut self.history {
            Some(h) => {
                h.ratio_num = ratio_num;
                h.ratio_den = ratio_den;
            },
            None => {},
        }
        assert(self@ =~= spec_set_page_ratio(old(self)@, ratio_num as int, ratio_den as int));
    }

    fn build(columns: i64, lines: i64, history: Option<History>) -> (s: Screen)
        requires
            0 <= columns <= DIM_MAX,
            0 <= lines <= DIM_MAX,
            history matches Some(h) ==> h.wf() && h.top@.len() == 0 && h.bottom@.len() == 0 && h.position == h.size && h.maxlen == h.size,
        ensures
            s.wf(),
            s@ == spec_reset(
                blank_screen(
                    columns as int,
                    lines as int,
                    match history {
                        Some(h) => Some(h@),
                        None => None,
                    },
                ),
            ),
    {
        let mode = default_mode();
        let mut s = Screen {
            savepoints: Vec::new(),
            columns,
            lines,
            buffer: IntMap::new(),
            dirty: IntSet::new(),
            mode,
            margins: None,
            title: String::new(),
            icon_name: String::new(),
            charset: 0,
            g0_charset: Charset::Latin1,
            g1_charset: Charset::Vt100Graphics,
            tabstops: IntSet::new(),
            cursor: Cursor::new(0, 0),
            saved_columns: None,
            outgoing: String::new(),
            history,
        };
        assert(s@ =~= blank_screen(
            columns as int,
            lines as int,
            match history {
                Some(h) => Some(h@),
                None => None,
            },
        ));
        s.reset();
        s
    }

    /// Whether this screen keeps scrollback history.
    pub fn has_history(&self) -> (b: bool)
        ensures
            b == self@.history is Some,
    {
        self.history.is_some()
    }

    /// Reset the terminal to its initial state.
    pub fn reset(&mut self)
        requires
            old(self).wf(),
        ensures
            final(self).wf(),
            final(self)@ == spec_reset(old(self)@),
    {
        self.dirty.insert_range(0, self.lines);
        self.buffer.clear();
        self.margins = None;
        let mode = default_mode();
        self.mode = mode;
        self.title = String::new();
        self.icon_name = String::new();
        self.charset = 0;
        self.g0_charset = Charset::Latin1;
        self.g1_charset = Charset::Vt100Graphics;
        let mut tabstops = IntSet::new();
        let mut t: i64 = 8;
        while t < self.columns
            invariant
                tabstops.wf(),
                8 <= t,
                t == 8 || t - 8 < self.columns,
                t % 8 == 0,
                self.columns <= DIM_MAX,
                tabstops@ == Set::new(|k: int| 8 <= k < t && k % 8 == 0),
            decreases self.columns + 8 - t,
        {
            tabstops.insert(t);
            assert(tabstops@ =~= Set::new(|k: int| 8 <= k < t + 8 && k % 8 == 0));
            t = t + 8;
        }
        assert(tabstops@ =~= default_tabstops(self.columns as int));
        self.tabstops = tabstops;
        let x = if self.columns - 1 < 0 {
            self.columns - 1
        } else {
            0
        };
        let y = if self.lines - 1 < 0 {
            self.lines - 1
        } else {
            0
        };
        self.cursor = Cursor::new(x, y);
        self.saved_columns = None;
        self.reset_history();
        assert(self@ =~= spec_reset(old(self)@));
    }

    /// Empties the history queues and returns the view to the bottom.
    fn reset_history(&mut self)
        requires
            old(self).wf(),
        ensures
            final(self).wf(),
            final(self)@ == (ScreenM { history: reset_history_model(old(self)@.history), ..old(self)@ }),
    {
        match &mut self.history {
            Some(h) => {
                h.top = Vec::new();
                h.bottom = Vec::new();
                h.position = h.size;
            },
            None => {},
        }
        assert(self@ =~= ScreenM { history: reset_history_model(old(self)@.history), ..old(self)@ });
    }

    /// Move down one line, scrolling up at the bottom margin.
    pub fn index(&mut self)
        requires
            old(self).wf(),
        ensures
            final(self).wf(),
            final(self)@ == spec_index(old(self)@),
    {
        proof {
            reveal(spec_index);
        }
        let m = self.margins_or_default();
        let (top, bottom) = (m.top, m.bottom);
        if self.history.is_some() && self.cursor.y == bottom {
            let l = self.take_line(top);
            let copy = l.dup();
            self.put_line(top, l);
            match &mut self.history {
                Some(h) => h.push_top(copy),
                None => {},
            }
        }
        let ghost s1 = self@;
        if self.cursor.y == bottom {
            self.dirty.insert_range(0, self.lines);
            shift_rows_up(&mut self.buffer, top, bottom);
            assert(self@ =~= spec_index(old(self)@));
        } else {
            self.cursor_down(None);
        }
    }
}


impl Screen {
    /// Move up one line, scrolling down at the top margin.
    pub fn reverse_index(&mut self)
        requires
            old(self).wf(),
        ensures
            final(self).wf(),
            final(self)@ == spec_reverse_index(old(self)@),
    {
        proof {
            reveal(spec_reverse_index);
        }
        let m = self.margins_or_default();
        let (top, bottom) = (m.top, m.bottom);
        if self.history.is_some() && self.cursor.y == top {
            let l = self.take_line(bottom);
            let copy = l.dup();
            self.put_line(bottom, l);
            match &mut self.history {
                Some(h) => h.push_bottom_back(copy),
                None => {},
            }
        }
        if self.cursor.y == top {
            self.dirty.insert_range(0, self.lines);
            shift_rows_down(&mut self.buffer, top, bottom);
            assert(self@ =~= spec_reverse_index(old(self)@));
        } else {
            self.cursor_up(None);
        }
    }

    /// Index, and a carriage return under new line mode.
    pub fn linefeed(&mut self)
        requires
            old(self).wf(),
        ensures
            final(self).wf(),
            final(self)@ == spec_linefeed(old(self)@),
    {
        self.index();
        if self.mode.contains(mo::LNM as i64) {
            self.carriage_return();
        }
    }

    /// The first tab stop right of the cursor, if any.
    fn next_stop(&self) -> (r: Option<i64>)
        requires
            self.wf(),
        ensures
            match r {
                Some(t) => self@.tabstops.contains(t as int) && t > self@.cursor.x && forall|u: int|
                    #[trigger] self@.tabstops.contains(u) && u > self@.cursor.x ==> t <= u,
                None => forall|u: int| #[trigger] self@.tabstops.contains(u) ==> u <= self@.cursor.x,
            },
    {
        let n = self.tabstops.items.len();
        let mut i: usize = 0;
        while i < n
            invariant
                self.wf(),
                n == self.tabstops.items@.len(),
                i <= n,
                forall|j: int| 0 <= j < i ==> #[trigger] self.tabstops.items@[j] <= self.cursor.x,
            decreases n - i,
        {
            let stop = self.tabstops.items[i];
            if self.cursor.x < stop {
                proof {
                    let s = self@;
                    assert(s.tabstops.contains(stop as int));
                    assert forall|u: int| #[trigger] s.tabstops.contains(u) && u > s.cursor.x implies stop <= u by {
                        let j = choose|j: int| 0 <= j < n && self.tabstops.items@[j] == u;
                        if j > i {
                            assert(self.tabstops.items@[i as int] < self.tabstops.items@[j]);
                        }
                    }
                }
                return Some(stop);
            }
            i = i + 1;
        }
        proof {
            let s = self@;
            assert forall|t: int| #[trigger] s.tabstops.contains(t) implies t <= s.cursor.x by {
                let j = choose|j: int| 0 <= j < n && self.tabstops.items@[j] == t;
            }
        }
        None
    }

    /// Move to the next tab stop, or to the last column.
    #[verifier::rlimit(30)]
    pub fn tab(&mut self)
        requires
            old(self).wf(),
        ensures
            final(self).wf(),
            final(self)@ == spec_tab(old(self)@),
    {
        let column = match self.next_stop() {
            Some(t) => {
                proof {
                    lemma_next_tab(self@, t as int);
                }
                t
            },
            None => {
                proof {
                    lemma_no_next_tab(self@);
                }
                self.columns - 1
            },
        };
        let ghost s0 = self@;
        assert(coord_ok(column as int));
        self.cursor.x = column;
        assert(self@ =~= with_x(s0, column as int));
    }

    /// Backspace one column.
    pub fn backspace(&mut self)
        requires
            old(self).wf(),
        ensures
            final(self).wf(),
            final(self)@ == spec_cursor_back(old(self)@, None),
    {
        self.cursor_back(None);
    }

    /// Push the cursor state (DECSC).
    pub fn save_cursor(&mut self)
        requires
            old(self).wf(),
        ensures
            final(self).wf(),
            final(self)@ == spec_save_cursor(old(self)@),
    {
        let sp = Savepoint {
            cursor: self.cursor.dup(),
            g0_charset: self.g0_charset,
            g1_charset: self.g1_charset,
            charset: self.charset,
            origin: self.mode.contains(mo::DECOM as i64),
            wrap: self.mode.contains(mo::DECAWM as i64),
        };
        self.savepoints.push(sp);
        assert(self@ =~= spec_save_cursor(old(self)@));
    }

    /// Set the terminal title.
    pub fn set_title(&mut self, param: &str)
        requires
            old(self).wf(),
        ensures
            final(self).wf(),
            final(self)@ == (ScreenM { title: param@, ..old(self)@ }),
    {
        self.title = str_to_string(param);
    }

    /// Set the icon name.
    pub fn set_icon_name(&mut self, param: &str)
        requires
            old(self).wf(),
        ensures
            final(self).wf(),
            final(self)@ == (ScreenM { icon_name: param@, ..old(self)@ }),
    {
        self.icon_name = str_to_string(param);
    }

    /// Designate the character set for `code` as `G0` (`(`) or `G1` (`)`).
    pub fn define_charset(&mut self, code: char, mode: char)
        requires
            old(self).wf(),
        ensures
            final(self).wf(),
            final(self)@ == spec_define_charset(old(self)@, code, mode),
    {
        if let Some(map) = maps(code) {
            if mode == '(' {
                self.g0_charset = map;
            } else if mode == ')' {
                self.g1_charset = map;
            }
        }
    }

    /// Select `G0` (SI).
    pub fn shift_in(&mut self)
        requires
            old(self).wf(),
        ensures
            final(self).wf(),
            final(self)@ == (ScreenM { charset: 0, ..old(self)@ }),
    {
        self.charset = 0;
    }

    /// Select `G1` (SO).
    pub fn shift_out(&mut self)
        requires
            old(self).wf(),
        ensures
            final(self).wf(),
            final(self)@ == (ScreenM { charset: 1, ..old(self)@ }),
    {
        self.charset = 1;
    }

    /// The bell: changes nothing on the screen.
    pub fn bell(&mut self)
        requires
            old(self).wf(),
        ensures
            final(self).wf(),
            final(self)@ == old(self)@,
    {
    }

    /// Set a tab stop at the cursor.
    pub fn set_tab_stop(&mut self)
        requires
            old(self).wf(),
        ensures
            final(self).wf(),
            final(self)@ == (ScreenM { tabstops: old(self)@.tabstops.insert(old(self)@.cursor.x), ..old(self)@ }),
    {
        self.tabstops.insert(self.cursor.x);
    }

    /// Clear the tab stop at the cursor (0) or all of them (3).
    pub fn clear_tab_stop(&mut self, how: i64)
        requires
            old(self).wf(),
        ensures
            final(self).wf(),
            final(self)@ == spec_clear_tab_stop(old(self)@, how),
    {
        if how == 0 {
            self.tabstops.remove(self.cursor.x);
        } else if how == 3 {
            self.tabstops.clear();
        }
    }

    /// Insert blank lines at the cursor.
    pub fn insert_lines(&mut self, count: Option<i64>)
        requires
            old(self).wf(),
            line_count_ok(old(self)@, count),
        ensures
            final(self).wf(),
            final(self)@ == spec_insert_lines(old(self)@, count),
    {
        let c = count_or_one_exec(count);
        let m = self.margins_or_default();
        let (top, bottom) = (m.top, m.bottom);
        if top <= self.cursor.y && self.cursor.y <= bottom {
            self.dirty.insert_range(self.cursor.y, self.lines);
            insert_line_loop(&mut self.buffer, self.cursor.y, bottom, c);
            self.carriage_return();
            assert(self@ =~= spec_insert_lines(old(self)@, count));
        }
    }

    /// Delete lines at the cursor.
    pub fn delete_lines(&mut self, count: Option<i64>)
        requires
            old(self).wf(),
            line_count_ok(old(self)@, count),
        ensures
            final(self).wf(),
            final(self)@ == spec_delete_lines(old(self)@, count),
    {
        let c = count_or_one_exec(count);
        let m = self.margins_or_default();
        let (top, bottom) = (m.top, m.bottom);
        if top <= self.cursor.y && self.cursor.y <= bottom {
            self.dirty.insert_range(self.cursor.y, self.lines);
            delete_line_loop(&mut self.buffer, self.cursor.y, bottom, c);
            self.carriage_return();
            assert(self@ =~= spec_delete_lines(old(self)@, count));
        }
    }
}

impl Screen {
    /// Insert blank characters at the cursor.
    pub fn insert_characters(&mut self, count: Option<i64>)
        requires
            old(self).wf(),
            char_count_ok(old(self)@, count),
        ensures
            final(self).wf(),
            final(self)@ == spec_insert_characters(old(self)@, count),
    {
        self.dirty.insert(self.cursor.y);
        let c = count_or_one_exec(count);
        let y = self.cursor.y;
        let l = self.take_line(y);
        let l = insert_char_loop(l, self.cursor.x, self.columns, c);
        self.put_line(y, l);
        assert(self@ =~= spec_insert_characters(old(self)@, count));
    }

    /// Delete characters at the cursor.
    pub fn delete_characters(&mut self, count: Option<i64>)
        requires
            old(self).wf(),
            char_count_ok(old(self)@, count),
        ensures
            final(self).wf(),
            final(self)@ == spec_delete_characters(old(self)@, count),
    {
        self.dirty.insert(self.cursor.y);
        let c = count_or_one_exec(count);
        let blank = self.default_char();
        let y = self.cursor.y;
        let l = self.take_line(y);
        let l = delete_char_loop(l, self.cursor.x, self.columns, c, &blank);
        self.put_line(y, l);
        assert(self@ =~= spec_delete_characters(old(self)@, count));
    }

    /// Erase characters at the cursor with the cursor's attributes.
    pub fn erase_characters(&mut self, count: Option<i64>)
        requires
            old(self).wf(),
            fits_i64(old(self)@.cursor.x + count_or_one(count)),
        ensures
            final(self).wf(),
            final(self)@ == spec_erase_characters(old(self)@, count),
    {
        self.dirty.insert(self.cursor.y);
        let c = count_or_one_exec(count);
        let end = if self.cursor.x + c < self.columns {
            self.cursor.x + c
        } else {
            self.columns
        };
        let attrs = self.cursor.attrs.dup();
        let y = self.cursor.y;
        let l = self.take_line(y);
        let l = fill_loop(l, self.cursor.x, end, &attrs);
        self.put_line(y, l);
        assert(self@ =~= spec_erase_characters(old(self)@, count));
    }

    /// Erase within the current line.
    pub fn erase_in_line(&mut self, how: i64)
        requires
            old(self).wf(),
        ensures
            final(self).wf(),
            final(self)@ == spec_erase_in_line(old(self)@, how),
    {
        self.dirty.insert(self.cursor.y);
        let (start, end) = if how == 0 {
            (self.cursor.x, self.columns)
        } else if how == 1 {
            (0, self.cursor.x + 1)
        } else if how == 2 {
            (0, self.columns)
        } else {
            return;
        };
        let attrs = self.cursor.attrs.dup();
        let y = self.cursor.y;
        let l = self.take_line(y);
        let l = fill_loop(l, start, end, &attrs);
        self.put_line(y, l);
        assert(self@ =~= spec_erase_in_line(old(self)@, how));
    }

    /// Erase within the display.
    pub fn erase_in_display(&mut self, how: Option<i64>, private: bool)
        requires
            old(self).wf(),
        ensures
            final(self).wf(),
            final(self)@ == spec_erase_in_display(old(self)@, how),
    {
        proof {
            reveal(spec_erase_in_display);
        }
        let how = match how {
            Some(h) => h,
            None => 0,
        };
        let (lo, hi) = if how == 0 {
            (self.cursor.y + 1, self.lines)
        } else if how == 1 {
            (0, self.cursor.y)
        } else if how == 2 || how == 3 {
            (0, self.lines)
        } else {
            (0, 0)
        };
        self.dirty.insert_range(lo, hi);
        let ghost s1 = self@;
        let attrs = self.cursor.attrs.dup();
        let mut y = lo;
        if lo < hi {
            while y < hi
                invariant
                    self.wf(),
                    lo <= y <= hi,
                    attrs@ == s1.cursor.attrs,
                    self@ == (ScreenM { buffer: self@.buffer, ..s1 }),
                    self@.buffer == Map::new(
                        |k: int| s1.buffer.contains_key(k) || lo <= k < y,
                        |k: int|
                            if lo <= k < y {
                                recolor_line(line_or_new(s1, k), s1.cursor.attrs)
                            } else {
                                s1.buffer[k]
                            },
                    ),
                decreases hi - y,
            {
                let l = self.take_line(y);
                let l = l.recolored(&attrs);
                self.put_line(y, l);
                assert(self@.buffer =~= Map::new(
                    |k: int| s1.buffer.contains_key(k) || lo <= k < y + 1,
                    |k: int|
                        if lo <= k < y + 1 {
                            recolor_line(line_or_new(s1, k), s1.cursor.attrs)
                        } else {
                            s1.buffer[k]
                        },
                ));
                y = y + 1;
            }
        }
        let ghost s2 = ScreenM {
            buffer: Map::new(
                |k: int| s1.buffer.contains_key(k) || lo <= k < hi,
                |k: int|
                    if lo <= k < hi {
                        recolor_line(line_or_new(s1, k), s1.cursor.attrs)
                    } else {
                        s1.buffer[k]
                    },
            ),
            ..s1
        };
        assert(self@ =~= s2);
        if how == 0 || how == 1 {
            self.erase_in_line(how);
        }
        if how == 3 {
            match &mut self.history {
                Some(h) => {
                    h.top = Vec::new();
                    h.bottom = Vec::new();
                    h.position = h.size;
                },
                None => {},
            }
        }
        assert(self@ =~= spec_erase_in_display(old(self)@, Some(how)));
    }

    /// Fill the screen with `E`s (DECALN).
    pub fn alignment_display(&mut self)
        requires
            old(self).wf(),
        ensures
            final(self).wf(),
            final(self)@ == spec_alignment_display(old(self)@),
    {
        proof {
            reveal(spec_alignment_display);
        }
        self.dirty.insert_range(0, self.lines);
        let ghost s1 = self@;
        let mut y: i64 = 0;
        while y < self.lines
            invariant
                self.wf(),
                0 <= y <= self.lines,
                self@ == (ScreenM { buffer: self@.buffer, ..s1 }),
                self@.buffer == Map::new(
                    |k: int| s1.buffer.contains_key(k) || 0 <= k < y,
                    |k: int|
                        if 0 <= k < y {
                            let l = line_or_new(s1, k);
                            LineM {
                                cells: Map::new(
                                    |x: int| l.cells.contains_key(x) || 0 <= x < s1.columns,
                                    |x: int|
                                        if 0 <= x < s1.columns {
                                            CharM { data: "E"@, ..line_get(l, x) }
                                        } else {
                                            l.cells[x]
                                        },
                                ),
                                ..l
                            }
                        } else {
                            s1.buffer[k]
                        },
                ),
            decreases self.lines - y,
        {
            let l = self.take_line(y);
            let l = align_loop(l, self.columns);
            self.put_line(y, l);
            assert(self@.buffer =~= Map::new(
                |k: int| s1.buffer.contains_key(k) || 0 <= k < y + 1,
                |k: int|
                    if 0 <= k < y + 1 {
                        let l = line_or_new(s1, k);
                        LineM {
                            cells: Map::new(
                                |x: int| l.cells.contains_key(x) || 0 <= x < s1.columns,
                                |x: int|
                                    if 0 <= x < s1.columns {
                                        CharM { data: "E"@, ..line_get(l, x) }
                                    } else {
                                        l.cells[x]
                                    },
                            ),
                            ..l
                        }
                    } else {
                        s1.buffer[k]
                    },
            ));
            y = y + 1;
        }
        assert(self@ =~= spec_alignment_display(old(self)@));
    }

    /// Select top and bottom scrolling margins (DECSTBM).
    pub fn set_margins(&mut self, top: Option<i64>, bottom: Option<i64>)
        requires
            old(self).wf(),
            top != Some(i64::MIN),
            bottom != Some(i64::MIN),
        ensures
            final(self).wf(),
            final(self)@ == spec_set_margins(old(self)@, top, bottom),
    {
        if (top.is_none() || top == Some(0i64)) && bottom.is_none() {
            self.margins = None;
            return;
        }
        let (btop, bbottom) = match self.margins {
            Some(m) => (m.top, m.bottom),
            None => (0, self.lines - 1),
        };
        let t = match top {
            None => btop,
            Some(t) => clamp_margin(t - 1, self.lines),
        };
        let b = match bottom {
            None => bbottom,
            Some(b) => clamp_margin(b - 1, self.lines),
        };
        if b - t >= 1 {
            self.margins = Some(Margins { top: t, bottom: b });
            self.cursor_position(None, None);
        }
    }
}

/// `max(0, min(v, lines - 1))`.
fn clamp_margin(v: i64, lines: i64) -> (r: i64)
    requires
        0 <= lines <= DIM_MAX,
    ensures
        r == max(0, min(v as int, lines - 1)),
{
    let m = if v < lines - 1 {
        v
    } else {
        lines - 1
    };
    if m > 0 {
        m
    } else {
        0
    }
}

impl Screen {
    /// Switches one mode on, for modes whose only other effect is origin
    /// mode's (the cursor goes home).
    fn set_plain_mode(&mut self, v: u32)
        requires
            old(self).wf(),
        ensures
            final(self).wf(),
            final(self)@ == spec_set_plain_mode(old(self)@, v),
    {
        self.mode.insert(v as i64);
        if v == mo::DECOM {
            self.cursor_position(None, None);
        }
    }

    /// Switches one mode off, for modes whose only other effect is origin
    /// mode's (the cursor goes home).
    fn reset_plain_mode(&mut self, v: u32)
        requires
            old(self).wf(),
        ensures
            final(self).wf(),
            final(self)@ == spec_reset_plain_mode(old(self)@, v),
    {
        self.mode.remove(v as i64);
        if v == mo::DECOM {
            self.cursor_position(None, None);
        }
    }

    /// Pop the cursor state (DECRC).
    #[verifier::rlimit(40)]
    pub fn restore_cursor(&mut self)
        requires
            old(self).wf(),
        ensures
            final(self).wf(),
            final(self)@ == spec_restore_cursor(old(self)@),
            final(self)@.columns == old(self)@.columns,
            final(self)@.lines == old(self)@.lines,
    {
        proof {
            reveal(spec_restore_cursor);
        }
        match self.savepoints.pop() {
            Some(sp) => {
                proof {
                    assert(old(self)@.savepoints.last() == sp@);
                    assert(self@.savepoints =~= old(self)@.savepoints.drop_last());
                }
                let Savepoint { cursor, g0_charset, g1_charset, charset, origin, wrap } = sp;
                self.g0_charset = g0_charset;
                self.g1_charset = g1_charset;
                self.charset = charset;
                if origin {
                    self.set_plain_mode(mo::DECOM);
                }
                if wrap {
                    self.set_plain_mode(mo::DECAWM);
                }
                self.cursor = cursor;
                self.ensure_hbounds();
                self.ensure_vbounds(Some(true));
            },
            None => {
                self.reset_plain_mode(mo::DECOM);
                self.cursor_position(None, None);
            },
        }
    }

    /// Delete the top `n` lines, keeping the cursor where it was.
    fn drop_top_lines(&mut self, n: i64)
        requires
            old(self).wf(),
            0 <= n <= DIM_MAX,
        ensures
            final(self).wf(),
            final(self)@ == spec_drop_top_lines(old(self)@, n as int),
            final(self)@.columns == old(self)@.columns,
            final(self)@.lines == old(self)@.lines,
    {
        proof {
            reveal(spec_drop_top_lines);
        }
        self.save_cursor();
        self.cursor_position(Some(0), Some(0));
        self.delete_lines(Some(n));
        self.restore_cursor();
    }

    /// Column mode switched on.
    fn enter_column_mode(&mut self)
        requires
            old(self).wf(),
        ensures
            final(self).wf(),
            final(self)@ == spec_enter_column_mode(old(self)@),
    {
        proof {
            reveal(spec_enter_column_mode);
        }
        self.saved_columns = Some(self.columns);
        self.resize(None, Some(132));
        self.erase_in_display(Some(2), false);
        self.cursor_position(None, None);
    }

    /// Column mode switched off.
    fn leave_column_mode(&mut self)
        requires
            old(self).wf(),
        ensures
            final(self).wf(),
            final(self)@ == spec_leave_column_mode(old(self)@),
    {
        proof {
            reveal(spec_leave_column_mode);
        }
        if self.columns == 132 && self.saved_columns.is_some() {
            self.resize(None, self.saved_columns);
            self.saved_columns = None;
        }
        self.erase_in_display(Some(2), false);
        self.cursor_position(None, None);
    }

    /// Screen-wide reverse video switched to `flag`.
    fn screen_reverse(&mut self, flag: bool)
        requires
            old(self).wf(),
        ensures
            final(self).wf(),
            final(self)@ == apply_screen_reverse(old(self)@, flag),
    {
        proof {
            reveal(apply_screen_reverse);
        }
        let dc = self.default_char();
        map_lines(&mut self.buffer, 1, 0, 0, &dc, flag);
        self.cursor.attrs.reverse = flag;
        assert(self@ =~= apply_screen_reverse(old(self)@, flag));
    }

    /// Resize the screen; absent or zero sizes are kept.
    pub fn resize(&mut self, lines: Option<i64>, columns: Option<i64>)
        requires
            old(self).wf(),
            size_arg_ok(lines),
            size_arg_ok(columns),
        ensures
            final(self).wf(),
            final(self)@ == spec_resize(old(self)@, lines, columns),
    {
        proof {
            reveal(spec_resize);
        }
        let l = match lines {
            Some(x) => if x != 0 {
                x
            } else {
                self.lines
            },
            None => self.lines,
        };
        let c = match columns {
            Some(x) => if x != 0 {
                x
            } else {
                self.columns
            },
            None => self.columns,
        };
        if l == self.lines && c == self.columns {
            return;
        }
        self.dirty.insert_range(0, l);
        if l < self.lines {
            self.drop_top_lines(self.lines - l);
        }
        if c < self.columns {
            let d = self.default_char();
            map_lines(&mut self.buffer, 0, c, self.columns, &d, false);
        }
        self.lines = l;
        self.columns = c;
        self.margins = None;
        assert(self@ =~= spec_resize(old(self)@, lines, columns));
    }

    /// Switch modes on (`private`: the `?` modes).
    #[verifier::rlimit(40)]
    pub fn set_mode(&mut self, modes: &[i64], private: bool)
        requires
            old(self).wf(),
        ensures
            final(self).wf(),
            final(self)@ == spec_set_mode(old(self)@, modes@, private),
    {
        proof {
            reveal(spec_set_mode);
        }
        let scnm = has_mode(modes, private, mo::DECSCNM);
        if private && scnm {
            self.dirty.insert_range(0, self.lines);
        }
        update_modes(&mut self.mode, modes, private, true);
        if has_mode(modes, private, mo::DECCOLM) {
            self.enter_column_mode();
        }
        if has_mode(modes, private, mo::DECOM) {
            self.cursor_position(None, None);
        }
        if scnm {
            self.screen_reverse(true);
        }
        if has_mode(modes, private, mo::DECTCEM) {
            self.cursor.hidden = false;
        }
        assert(self@ =~= spec_set_mode(old(self)@, modes@, private));
    }

    /// Switch modes off (`private`: the `?` modes).
    #[verifier::rlimit(40)]
    pub fn reset_mode(&mut self, modes: &[i64], private: bool)
        requires
            old(self).wf(),
        ensures
            final(self).wf(),
            final(self)@ == spec_reset_mode(old(self)@, modes@, private),
    {
        proof {
            reveal(spec_reset_mode);
        }
        let scnm = has_mode(modes, private, mo::DECSCNM);
        if private && scnm {
            self.dirty.insert_range(0, self.lines);
        }
        update_modes(&mut self.mode, modes, private, false);
        if has_mode(modes, private, mo::DECCOLM) {
            self.leave_column_mode();
        }
        if has_mode(modes, private, mo::DECOM) {
            self.cursor_position(None, None);
        }
        if scnm {
            self.screen_reverse(false);
        }
        if has_mode(modes, private, mo::DECTCEM) {
            self.cursor.hidden = true;
        }
        assert(self@ =~= spec_reset_mode(old(self)@, modes@, private));
    }
}

impl Screen {
    /// Draws one character translated through `map`; false when it stops the
    /// drawing.
    fn draw_char(&mut self, map: Charset, raw: char) -> (go: bool)
        requires
            old(self).wf(),
        ensures
            final(self).wf(),
            (final(self)@, go) == draw_step(old(self)@, map, raw),
    {
        let ch = translate(map, raw);
        let w = wcwidth(ch);
        self.make_room(w);
        self.put_char(ch, w)
    }

    fn make_room(&mut self, w: i32)
        requires
            old(self).wf(),
            -1 <= w <= 3,
        ensures
            final(self).wf(),
            final(self)@ == draw_make_room(old(self)@, w as int),
    {
        proof {
            reveal(draw_make_room);
        }
        if self.cursor.x == self.columns {
            if self.mode.contains(mo::DECAWM as i64) {
                self.dirty.insert(self.cursor.y);
                self.carriage_return();
                self.linefeed();
            } else if w > 0 {
                self.cursor.x = self.cursor.x - w as i64;
            }
        }
        if self.mode.contains(mo::IRM as i64) && w > 0 {
            self.insert_characters(Some(w as i64));
        }
    }

    fn put_char(&mut self, ch: char, w: i32) -> (go: bool)
        requires
            old(self).wf(),
            -1 <= w <= 3,
        ensures
            final(self).wf(),
            (final(self)@, go) == draw_put(old(self)@, ch, w as int),
    {
        proof {
            reveal(draw_put);
        }
        let cx = self.cursor.x;
        let cy = self.cursor.y;
        if w == 1 {
            self.put_narrow(ch);
            true
        } else if w == 2 {
            self.put_wide(ch);
            true
        } else if w == 0 && combining(ch) {
            if cx != 0 {
                self.combine(cx - 1, cy, ch);
            } else if cy != 0 {
                self.combine(self.columns - 1, cy - 1, ch);
            }
            true
        } else {
            false
        }
    }

    fn put_narrow(&mut self, ch: char)
        requires
            old(self).wf(),
        ensures
            final(self).wf(),
            final(self)@ == advance_cursor(
                with_cell(old(self)@, old(self)@.cursor.x, old(self)@.cursor.y, CharM { data: seq![ch], ..old(self)@.cursor.attrs }),
                1,
            ),
    {
        let cx = self.cursor.x;
        let cy = self.cursor.y;
        let mut c = self.cursor.attrs.dup();
        let mut d = String::new();
        push_char(&mut d, ch);
        c.data = d;
        self.set_cell(cx, cy, c);
        self.cursor.x = if cx + 1 < self.columns {
            cx + 1
        } else {
            self.columns
        };
    }

    #[verifier::rlimit(40)]
    fn put_wide(&mut self, ch: char)
        requires
            old(self).wf(),
        ensures
            final(self).wf(),
            final(self)@ == ({
                let s2 = old(self)@;
                let cx = s2.cursor.x;
                let cy = s2.cursor.y;
                let attrs = s2.cursor.attrs;
                let s3 = with_cell(s2, cx, cy, CharM { data: seq![ch], ..attrs });
                let s4 = if cx + 1 < s2.columns {
                    with_cell(s3, cx + 1, cy, CharM { data: Seq::empty(), ..attrs })
                } else {
                    s3
                };
                advance_cursor(s4, 2)
            }),
    {
        let cx = self.cursor.x;
        let cy = self.cursor.y;
        let attrs = self.cursor.attrs.dup();
        let mut c = attrs.dup();
        let mut d = String::new();
        push_char(&mut d, ch);
        c.data = d;
        let ghost s2 = self@;
        self.set_cell(cx, cy, c);
        let ghost s3 = self@;
        assert(s3 == with_cell(s2, cx as int, cy as int, CharM { data: seq![ch], ..s2.cursor.attrs }));
        if cx + 1 < self.columns {
            let mut stub = attrs;
            stub.data = String::new();
            self.set_cell(cx + 1, cy, stub);
        }
        self.cursor.x = if cx + 2 < self.columns {
            cx + 2
        } else {
            self.columns
        };
    }

    /// Folds combining character `ch` into the character at `(x, y)`.
    fn combine(&mut self, x: i64, y: i64, ch: char)
        requires
            old(self).wf(),
        ensures
            final(self).wf(),
            final(self)@ == combine_at(old(self)@, x as int, y as int, ch),
    {
        let last = self.cell(x, y);
        let mut d = string_copy(&last.data);
        push_char(&mut d, ch);
        let mut c = last;
        c.data = nfc(d.as_str());
        self.set_cell(x, y, c);
    }

    /// Display characters at the cursor, advancing per auto-wrap.
    pub fn draw(&mut self, data: &str)
        requires
            old(self).wf(),
        ensures
            final(self).wf(),
            final(self)@ == spec_draw(old(self)@, data@),
    {
        let map = if self.charset != 0 {
            self.g1_charset
        } else {
            self.g0_charset
        };
        let chars = str_chars(data);
        let n = chars.len();
        let mut i: usize = 0;
        let mut go = true;
        assert(chars@.subrange(0, n as int) =~= chars@);
        while i < n && go
            invariant
                self.wf(),
                n == chars@.len(),
                i <= n,
                go ==> draw_chars(old(self)@, map, chars@) == draw_chars(self@, map, chars@.subrange(i as int, n as int)),
                !go ==> draw_chars(old(self)@, map, chars@) == self@,
            decreases n - i,
        {
            let ghost before = self@;
            assert(chars@.subrange(i as int, n as int).drop_first() =~= chars@.subrange(i + 1, n as int));
            assert(chars@.subrange(i as int, n as int)[0] == chars@[i as int]);
            go = self.draw_char(map, chars[i]);
            i = i + 1;
        }
        if go {
            assert(chars@.subrange(i as int, n as int) =~= Seq::<char>::empty());
        }
        self.dirty.insert(self.cursor.y);
    }
}

impl Screen {
    /// Set display attributes (SGR).
    pub fn select_graphic_rendition(&mut self, attrs: &[i64])
        requires
            old(self).wf(),
        ensures
            final(self).wf(),
            final(self)@ == spec_sgr(old(self)@, attrs@),
    {
        let dc = self.default_char();
        if attrs.len() == 0 || (attrs.len() == 1 && attrs[0] == 0) {
            proof {
                if attrs.len() == 1 {
                    assert(attrs@ =~= seq![0i64]);
                }
            }
            self.cursor.attrs = dc;
            return;
        }
        assert(attrs@ != seq![0i64]) by {
            if attrs@ == seq![0i64] {
                assert(attrs@.len() == 1 && attrs@[0] == 0);
            }
        }
        let mut work = self.cursor.attrs.dup();
        let n = attrs.len();
        let mut i: usize = 0;
        while i < n
            invariant
                n == attrs@.len(),
                i <= n,
                sgr_from(dc@, attrs@, 0, old(self)@.cursor.attrs) == sgr_from(dc@, attrs@, i as int, work@),
            decreases n - i,
        {
            let (i_next, w) = sgr_step(&dc, attrs, i, work);
            i = i_next;
            work = w;
        }
        self.cursor.attrs = work;
    }

    /// Report terminal identity (primary DA).
    pub fn report_device_attributes(&mut self, mode: i64, private: bool)
        requires
            old(self).wf(),
        ensures
            final(self).wf(),
            final(self)@ == spec_report_device_attributes(old(self)@, mode, private),
    {
        if mode == 0 && !private {
            let reply: [char; 5] = ['\u{1b}', '[', '?', '6', 'c'];
            assert(reply@ =~= da_reply());
            push_chars(&mut self.outgoing, &reply);
        }
    }

    /// Report terminal status (5) or cursor position (6).
    pub fn report_device_status(&mut self, mode: i64)
        requires
            old(self).wf(),
        ensures
            final(self).wf(),
            final(self)@ == spec_report_device_status(old(self)@, mode),
    {
        if mode == 5 {
            let reply: [char; 4] = ['\u{1b}', '[', '0', 'n'];
            assert(reply@ =~= seq!['\u{1b}', '[', '0', 'n']);
            push_chars(&mut self.outgoing, &reply);
        } else if mode == 6 {
            let x = self.cursor.x + 1;
            let mut y = self.cursor.y + 1;
            if self.mode.contains(mo::DECOM as i64) {
                if let Some(m) = self.margins {
                    y = y - m.top;
                }
            }
            let csi: [char; 2] = ['\u{1b}', '['];
            assert(csi@ =~= seq!['\u{1b}', '[']);
            push_chars(&mut self.outgoing, &csi);
            push_dec(&mut self.outgoing, y);
            push_char(&mut self.outgoing, ';');
            push_dec(&mut self.outgoing, x);
            push_char(&mut self.outgoing, 'R');
            assert(self@.outgoing =~= old(self)@.outgoing + seq!['\u{1b}', '['] + dec_int(y as int) + seq![';'] + dec_int(x as int) + seq!['R']);
        }
        assert(self@ =~= spec_report_device_status(old(self)@, mode));
    }

    /// Queue data for the child process (device reports).
    pub fn write_process_input(&mut self, data: &str)
        requires
            old(self).wf(),
        ensures
            final(self).wf(),
            final(self)@ == (ScreenM { outgoing: old(self)@.outgoing + data@, ..old(self)@ }),
    {
        let chars = str_chars(data);
        push_chars(&mut self.outgoing, chars.as_slice());
    }

    /// Hands over the queued replies for the child process, leaving none.
    pub fn take_outgoing(&mut self) -> (out: String)
        requires
            old(self).wf(),
        ensures
            final(self).wf(),
            out@ == old(self)@.outgoing,
            final(self)@ == (ScreenM { outgoing: Seq::empty(), ..old(self)@ }),
    {
        let mut out = String::new();
        std::mem::swap(&mut out, &mut self.outgoing);
        out
    }

    /// Forgets which lines changed.
    pub fn clear_dirty(&mut self)
        requires
            old(self).wf(),
        ensures
            final(self).wf(),
            final(self)@ == (ScreenM { dirty: Set::empty(), ..old(self)@ }),
    {
        self.dirty.clear();
    }

    /// The changed line numbers, in increasing order.
    pub fn dirty_sorted(&self) -> (v: Vec<i64>)
        requires
            self.wf(),
        ensures
            crate::intmap::strictly_sorted(v@),
            forall|y: int| self@.dirty.contains(y) <==> exists|i: int| 0 <= i < v@.len() && v@[i] == y,
    {
        self.dirty.to_vec()
    }

    /// The active modes, in increasing order.
    pub fn mode_sorted(&self) -> (v: Vec<u32>)
        requires
            self.wf(),
        ensures
            forall|i: int, j: int| 0 <= i < j < v@.len() ==> #[trigger] v@[i] < #[trigger] v@[j],
            forall|m: int| self@.mode.contains(m) <==> exists|i: int| 0 <= i < v@.len() && v@[i] == m,
    {
        let n = self.mode.items.len();
        let mut v: Vec<u32> = Vec::new();
        let mut i: usize = 0;
        while i < n
            invariant
                self.wf(),
                n == self.mode.items@.len(),
                i <= n,
                v@.len() == i,
                forall|j: int| 0 <= j < i ==> #[trigger] v@[j] as int == self.mode.items@[j],
            decreases n - i,
        {
            let m = self.mode.items[i];
            assert(self@.mode.contains(m as int));
            v.push(m as u32);
            i = i + 1;
        }
        proof {
            assert forall|a: int, b: int| 0 <= a < b < v@.len() implies #[trigger] v@[a] < #[trigger] v@[b] by {
                assert(self.mode.items@[a] < self.mode.items@[b]);
            }
            assert forall|m: int| self@.mode.contains(m) implies exists|i: int| 0 <= i < v@.len() && v@[i] == m by {
                let j = choose|j: int| 0 <= j < n && self.mode.items@[j] == m;
                assert(v@[j] == m);
            }
            assert forall|m: int| (exists|i: int| 0 <= i < v@.len() && v@[i] == m) implies self@.mode.contains(m) by {
                let j = choose|j: int| 0 <= j < v@.len() && v@[j] == m;
                assert(self.mode.items@[j] == m);
            }
        }
        v
    }

    /// The scrollback state: position, size, and the lengths of the top and
    /// bottom queues.
    pub fn history_state(&self) -> (r: Option<(usize, usize, usize, usize)>)
        ensures
            r is Some <==> self@.history is Some,
            r matches Some(t) ==> t.0 == self@.history->Some_0.position && t.1 == self@.history->Some_0.size
                && t.2 == self@.history->Some_0.top.len() && t.3 == self@.history->Some_0.bottom.len(),
    {
        match &self.history {
            Some(h) => Some((h.position, h.size, h.top.len(), h.bottom.len())),
            None => None,
        }
    }
}

/// Applies the SGR parameter at `attrs[i]` (with the parameters it takes)
/// to `work`; returns where the next parameter starts.
fn sgr_step(dc: &Char, attrs: &[i64], i: usize, work: Char) -> (r: (usize, Char))
    requires
        i < attrs@.len(),
    ensures
        i < r.0 <= attrs@.len(),
        sgr_from(dc@, attrs@, i as int, work@) == sgr_from(dc@, attrs@, r.0 as int, r.1@),
{
    let n = attrs.len();
    let mut work = work;
    let attr = attrs[i];
    let i1 = i + 1;
    if attr == 0 {
        (i1, dc.dup())
    } else if let Some(name) = g::fg_ansi(attr) {
        work.fg = str_to_string(name);
        (i1, work)
    } else if let Some(name) = g::bg_ansi(attr) {
        work.bg = str_to_string(name);
        (i1, work)
    } else if let Some((a, on)) = g::text_attr(attr) {
        proof {
            g::lemma_text_attr_exclusive(attr);
        }
        apply_text_flag(&mut work, a, on);
        (i1, work)
    } else if let Some(name) = g::fg_aixterm(attr) {
        work.fg = str_to_string(name);
        (i1, work)
    } else if let Some(name) = g::bg_aixterm(attr) {
        work.bg = str_to_string(name);
        (i1, work)
    } else if attr == g::FG_256 || attr == g::BG_256 {
        let is_fg = attr == g::FG_256;
        if i1 >= n {
            (i1, work)
        } else {
            let code = attrs[i1];
            let i2 = i1 + 1;
            if code == 5 {
                if i2 >= n {
                    (i2, work)
                } else {
                    let m = attrs[i2];
                    if 0 <= m && m < 256 {
                        let hex = palette_hex_string(m as usize);
                        if is_fg {
                            work.fg = hex;
                        } else {
                            work.bg = hex;
                        }
                    }
                    (i2 + 1, work)
                }
            } else if code == 2 {
                if n - i2 <= 2 {
                    (i2, work)
                } else {
                    let hex = rgb_hex_string(attrs[i2], attrs[i2 + 1], attrs[i2 + 2]);
                    if is_fg {
                        work.fg = hex;
                    } else {
                        work.bg = hex;
                    }
                    (i2 + 3, work)
                }
            } else {
                (i2, work)
            }
        }
    } else {
        (i1, work)
    }
}

/// The modes on power-up and after a reset: auto-wrap and a visible cursor.
fn default_mode() -> (m: IntSet)
    ensures
        m.wf(),
        m@ == default_modes(),
{
    let mut m = IntSet::new();
    m.insert(mo::DECAWM as i64);
    m.insert(mo::DECTCEM as i64);
    assert(m@ =~= default_modes());
    m
}

/// Switches a text style on or off.
fn apply_text_flag(c: &mut Char, a: g::TextAttr, on: bool)
    ensures
        final(c)@ == with_text_attr(old(c)@, a, on),
{
    match a {
        g::TextAttr::Bold => c.bold = on,
        g::TextAttr::Italics => c.italics = on,
        g::TextAttr::Underscore => c.underscore = on,
        g::TextAttr::Blink => c.blink = on,
        g::TextAttr::Reverse => c.reverse = on,
        g::TextAttr::Strikethrough => c.strikethrough = on,
    }
}

/// Entry `m` of the 256-color table as `rrggbb`.
fn palette_hex_string(m: usize) -> (r: String)
    requires
        m < 256,
    ensures
        r@ == palette_hex(m as int),
{
    let (red, green, blue) = g::palette_color(m);
    let mut r = String::new();
    push_hex2(&mut r, red as u64);
    push_hex2(&mut r, green as u64);
    push_hex2(&mut r, blue as u64);
    assert(r@ =~= palette_hex(m as int));
    r
}

/// A true color as `rrggbb`.
fn rgb_hex_string(red: i64, green: i64, blue: i64) -> (r: String)
    ensures
        r@ == rgb_hex(red, green, blue),
{
    let mut r = String::new();
    push_hex2(&mut r, red as u64);
    push_hex2(&mut r, green as u64);
    push_hex2(&mut r, blue as u64);
    assert(r@ =~= rgb_hex(red, green, blue));
    r
}

/// Scrolls rows `top..=bottom` up by one: each takes the row below it and
/// row `bottom` becomes empty.
fn shift_rows_up(buffer: &mut IntMap<Line>, top: i64, bottom: i64)
    requires
        old(buffer).wf(),
        bottom < i64::MAX,
    ensures
        final(buffer).wf(),
        final(buffer)@ == shift_up(old(buffer)@, top as int, bottom as int),
{
    let ghost b = buffer@;
    let mut y = top;
    while y < bottom
        invariant
            buffer.wf(),
            top <= y,
            y <= bottom || y == top,
            bottom < i64::MAX,
            buffer@ == shift_up_upto(b, top as int, y as int),
        decreases bottom - y,
    {
        match buffer.remove(y + 1) {
            Some(l) => buffer.insert(y, l),
            None => {
                buffer.remove(y);
            },
        }
        assert(buffer@ =~= shift_up_upto(b, top as int, y + 1));
        y = y + 1;
    }
    buffer.remove(bottom);
    assert(buffer@ =~= shift_up(b, top as int, bottom as int));
}

/// Scrolls rows `top..=bottom` down by one: each takes the row above it and
/// row `top` becomes empty.
fn shift_rows_down(buffer: &mut IntMap<Line>, top: i64, bottom: i64)
    requires
        old(buffer).wf(),
        top > i64::MIN,
    ensures
        final(buffer).wf(),
        final(buffer)@ == shift_down(old(buffer)@, top as int, bottom as int),
{
    let ghost b = buffer@;
    let mut y = bottom;
    while y > top
        invariant
            buffer.wf(),
            y <= bottom,
            top <= y || y == bottom,
            top > i64::MIN,
            buffer@ == shift_down_from(b, y as int, bottom as int),
        decreases y - top,
    {
        match buffer.remove(y - 1) {
            Some(l) => buffer.insert(y, l),
            None => {
                buffer.remove(y);
            },
        }
        assert(buffer@ =~= shift_down_from(b, y - 1, bottom as int));
        y = y - 1;
    }
    buffer.remove(top);
    assert(buffer@ =~= shift_down(b, top as int, bottom as int));
}


fn insert_line_loop(buffer: &mut IntMap<Line>, lo: i64, bottom: i64, c: i64)
    requires
        old(buffer).wf(),
        lo > i64::MIN,
        fits_i64(lo + c),
        fits_i64(bottom + c),
    ensures
        final(buffer).wf(),
        final(buffer)@ == insert_line_steps(old(buffer)@, lo as int, bottom as int, c as int, bottom as int),
{
    let ghost b = buffer@;
    if bottom < lo {
        return;
    }
    let mut y = bottom;
    while y >= lo
        invariant
            buffer.wf(),
            lo - 1 <= y <= bottom,
            lo > i64::MIN,
            fits_i64(lo + c),
            fits_i64(bottom + c),
            buffer@ == insert_line_steps(b, y + 1, bottom as int, c as int, bottom as int),
        decreases y - lo + 1,
    {
        let ghost b1 = buffer@;
        if y + c <= bottom && buffer.contains_key(y) {
            match buffer.remove(y) {
                Some(l) => buffer.insert(y + c, l),
                None => {},
            }
        } else {
            buffer.remove(y);
        }
        assert(buffer@ =~= insert_line_step(b1, y as int, c as int, bottom as int));
        y = y - 1;
    }
}

fn delete_line_loop(buffer: &mut IntMap<Line>, lo: i64, bottom: i64, c: i64)
    requires
        old(buffer).wf(),
        bottom < i64::MAX,
        fits_i64(lo + c),
        fits_i64(bottom + c),
    ensures
        final(buffer).wf(),
        final(buffer)@ == delete_line_steps(old(buffer)@, lo as int, bottom as int, c as int, bottom as int),
{
    let ghost b = buffer@;
    if bottom < lo {
        return;
    }
    let mut y = lo;
    while y <= bottom
        invariant
            buffer.wf(),
            lo <= y <= bottom + 1,
            bottom < i64::MAX,
            fits_i64(lo + c),
            fits_i64(bottom + c),
            buffer@ == delete_line_steps(b, lo as int, y - 1, c as int, bottom as int),
        decreases bottom - y + 1,
    {
        let ghost b1 = buffer@;
        if y + c <= bottom {
            match buffer.remove(y + c) {
                Some(l) => buffer.insert(y, l),
                None => {},
            }
        } else {
            buffer.remove(y);
        }
        assert(buffer@ =~= delete_line_step(b1, y as int, c as int, bottom as int));
        y = y + 1;
    }
}


proof fn lemma_next_tab(s: ScreenM, t: int)
    requires
        s.tabstops.contains(t),
        t > s.cursor.x,
        forall|u: int| #[trigger] s.tabstops.contains(u) && u > s.cursor.x ==> t <= u,
    ensures
        next_tab_column(s) == t,
{
    let c = next_tab_column(s);
    assert(s.tabstops.contains(c) && c > s.cursor.x && forall|u: int|
        #[trigger] s.tabstops.contains(u) && u > s.cursor.x ==> c <= u);
    assert(c <= t);
    assert(t <= c);
}

proof fn lemma_no_next_tab(s: ScreenM)
    requires
        forall|u: int| #[trigger] s.tabstops.contains(u) ==> u <= s.cursor.x,
    ensures
        next_tab_column(s) == s.columns - 1,
{
}


fn insert_char_loop(l: Line, lo: i64, columns: i64, c: i64) -> (r: Line)
    requires
        lo > i64::MIN,
        fits_i64(lo + c),
        fits_i64(columns + c),
    ensures
        r@ == insert_char_steps(l@, lo as int, columns as int, c as int, columns as int),
{
    let ghost l0 = l@;
    let mut l = l;
    if columns < lo {
        return l;
    }
    let mut x = columns;
    while x >= lo
        invariant
            lo - 1 <= x <= columns,
            lo > i64::MIN,
            fits_i64(lo + c),
            fits_i64(columns + c),
            l@ == insert_char_steps(l0, x + 1, columns as int, c as int, columns as int),
        decreases x - lo + 1,
    {
        let ghost l1 = l@;
        if x + c <= columns {
            let ch = l.get(x);
            l = l.with(x + c, ch);
        }
        l = l.without(x);
        assert(l@ =~= insert_char_step(l1, x as int, c as int, columns as int));
        x = x - 1;
    }
    l
}

fn delete_char_loop(l: Line, lo: i64, columns: i64, c: i64, blank: &Char) -> (r: Line)
    requires
        columns > i64::MIN,
        fits_i64(lo + c),
        fits_i64(columns + c),
    ensures
        r@ == delete_char_steps(l@, lo as int, columns - 1, c as int, columns as int, blank@),
{
    let ghost l0 = l@;
    let mut l = l;
    if columns <= lo {
        return l;
    }
    let mut x = lo;
    while x < columns
        invariant
            lo <= x <= columns,
            fits_i64(lo + c),
            fits_i64(columns + c),
            l@ == delete_char_steps(l0, lo as int, x - 1, c as int, columns as int, blank@),
        decreases columns - x,
    {
        let ghost l1 = l@;
        if x + c <= columns {
            let (l2, moved) = l.take(x + c);
            let ch = match moved {
                Some(ch) => ch,
                None => blank.dup(),
            };
            l = l2.with(x, ch);
        } else {
            l = l.without(x);
        }
        assert(l@ =~= delete_char_step(l1, x as int, c as int, columns as int, blank@));
        x = x + 1;
    }
    l
}

fn fill_loop(l: Line, lo: i64, hi: i64, c: &Char) -> (r: Line)
    ensures
        r@ == fill_line(l@, lo as int, hi as int, c@),
{
    let ghost l0 = l@;
    let mut l = l;
    if hi <= lo {
        assert(l@ =~= fill_line(l0, lo as int, hi as int, c@));
        return l;
    }
    let mut x = lo;
    while x < hi
        invariant
            lo <= x <= hi,
            l@ == fill_line(l0, lo as int, x as int, c@),
        decreases hi - x,
    {
        l = l.with(x, c.dup());
        assert(l@ =~= fill_line(l0, lo as int, x + 1, c@));
        x = x + 1;
    }
    l
}

fn align_loop(l: Line, columns: i64) -> (r: Line)
    requires
        columns >= 0,
    ensures
        r@ == (LineM {
            cells: Map::new(
                |x: int| l@.cells.contains_key(x) || 0 <= x < columns,
                |x: int|
                    if 0 <= x < columns {
                        CharM { data: "E"@, ..line_get(l@, x) }
                    } else {
                        l@.cells[x]
                    },
            ),
            ..l@
        }),
{
    let ghost l0 = l@;
    let mut l = l;
    let mut x: i64 = 0;
    while x < columns
        invariant
            0 <= x <= columns,
            l@ == (LineM {
                cells: Map::new(
                    |k: int| l0.cells.contains_key(k) || 0 <= k < x,
                    |k: int|
                        if 0 <= k < x {
                            CharM { data: "E"@, ..line_get(l0, k) }
                        } else {
                            l0.cells[k]
                        },
                ),
                ..l0
            }),
        decreases columns - x,
    {
        let mut ch = l.get(x);
        assert(ch@ == line_get(l0, x as int));
        ch.data = str_to_string("E");
        l = l.with(x, ch);
        assert(l@.cells =~= Map::new(
            |k: int| l0.cells.contains_key(k) || 0 <= k < x + 1,
            |k: int|
                if 0 <= k < x + 1 {
                    CharM { data: "E"@, ..line_get(l0, k) }
                } else {
                    l0.cells[k]
                },
        ));
        x = x + 1;
    }
    l
}


impl Line {
    /// This line with default `d` and the reverse flag of every held cell set
    /// to `flag`.
    fn with_reverse(self, d: Char, flag: bool) -> (l: Line)
        ensures
            l@ == (LineM {
                cells: self@.cells.map_values(|c: CharM| CharM { reverse: flag, ..c }),
                default: d@,
            }),
    {
        proof {
            use_type_invariant(&self);
        }
        let Line { mut cells, default } = self;
        let ghost orig = cells.entries@;
        let ghost m0 = cells@;
        let n = cells.entry_count();
        let mut i: usize = 0;
        while i < n
            invariant
                cells.wf(),
                keys_sorted(orig),
                cells.entries@.len() == n,
                orig.len() == n,
                i <= n,
                m0 == crate::intmap::assoc_map(orig),
                forall|j: int| 0 <= j < n ==> (#[trigger] cells.entries@[j]).0 == orig[j].0,
                forall|j: int|
                    0 <= j < i ==> (#[trigger] cells.entries@[j]).1@ == (CharM {
                        reverse: flag,
                        ..orig[j].1@
                    }),
                forall|j: int| i <= j < n ==> #[trigger] cells.entries@[j] == orig[j],
            decreases n - i,
        {
            let mut c = cells.value_at(i).dup();
            c.reverse = flag;
            cells.set_value_at(i, c);
            i = i + 1;
        }
        proof {
            let target = m0.map_values(|c: CharM| CharM { reverse: flag, ..c });
            assert forall|x: int| cells@.contains_key(x) <==> target.contains_key(x) by {
                if cells@.contains_key(x) {
                    let j = choose|j: int| 0 <= j < n && cells.entries@[j].0 == x;
                    assert(orig[j].0 == x);
                }
                if m0.contains_key(x) {
                    let j = choose|j: int| 0 <= j < n && orig[j].0 == x;
                    assert(cells.entries@[j].0 == x);
                }
            }
            assert forall|x: int| #[trigger] cells@.contains_key(x) implies cells@[x] == target[x] by {
                let j = choose|j: int| 0 <= j < n && cells.entries@[j].0 == x;
                cells.lemma_view_index(j);
                crate::intmap::lemma_assoc_index(orig, j);
            }
            assert(cells@ =~= target);
        }
        Line { cells, default: d }
    }

    /// This line without the columns `lo..hi`.
    fn trimmed(self, lo: i64, hi: i64) -> (l: Line)
        ensures
            l@ == trim_line(self@, lo as int, hi as int),
    {
        let ghost l0 = self@;
        let mut l = self;
        if hi <= lo {
            assert(l@ =~= trim_line(l0, lo as int, hi as int));
            return l;
        }
        let mut x = lo;
        while x < hi
            invariant
                lo <= x <= hi,
                l@ == trim_line(l0, lo as int, x as int),
            decreases hi - x,
        {
            l = l.without(x);
            assert(l@ =~= trim_line(l0, lo as int, x + 1));
            x = x + 1;
        }
        l
    }

    /// This line without the columns after `c`.
    fn cut(self, c: i64) -> (l: Line)
        ensures
            l@ == cut_after(self@, c as int),
    {
        proof {
            use_type_invariant(&self);
        }
        let Line { mut cells, default } = self;
        cells.remove_above(c);
        let l = Line { cells, default };
        assert(l@ =~= cut_after(self@, c as int));
        l
    }
}

/// Applies `f` to every line of the buffer, as chosen by `op`: trim columns
/// `lo..hi` (op 0), set the default `d` and reverse flag `flag` (op 1), or
/// drop the columns after `lo` (op 2).
fn map_lines(buffer: &mut IntMap<Line>, op: u8, lo: i64, hi: i64, d: &Char, flag: bool)
    requires
        old(buffer).wf(),
    ensures
        final(buffer).wf(),
        op == 0 ==> final(buffer)@ == old(buffer)@.map_values(|ln: LineM| trim_line(ln, lo as int, hi as int)),
        op == 1 ==> final(buffer)@ == set_reverse_all(old(buffer)@, d@, flag),
        op == 2 ==> final(buffer)@ == old(buffer)@.map_values(|ln: LineM| cut_after(ln, lo as int)),
{
    let ghost orig = buffer.entries@;
    let ghost m0 = buffer@;
    let n = buffer.entry_count();
    let mut i: usize = 0;
    while i < n
        invariant
            buffer.wf(),
            keys_sorted(orig),
            buffer.entries@.len() == n,
            orig.len() == n,
            i <= n,
            m0 == crate::intmap::assoc_map(orig),
            forall|j: int| 0 <= j < n ==> (#[trigger] buffer.entries@[j]).0 == orig[j].0,
            forall|j: int|
                0 <= j < i ==> (#[trigger] buffer.entries@[j]).1@ == (if op == 0 {
                    trim_line(orig[j].1@, lo as int, hi as int)
                } else if op == 2 {
                    cut_after(orig[j].1@, lo as int)
                } else {
                    LineM {
                        cells: orig[j].1@.cells.map_values(|c: CharM| CharM { reverse: flag, ..c }),
                        default: d@,
                    }
                }),
            forall|j: int| i <= j < n ==> #[trigger] buffer.entries@[j] == orig[j],
        decreases n - i,
    {
        let l = buffer.value_at(i).dup();
        let l = if op == 0 {
            l.trimmed(lo, hi)
        } else if op == 2 {
            l.cut(lo)
        } else {
            l.with_reverse(d.dup(), flag)
        };
        buffer.set_value_at(i, l);
        i = i + 1;
    }
    proof {
        let f = |ln: LineM|
            if op == 0 {
                trim_line(ln, lo as int, hi as int)
            } else if op == 2 {
                cut_after(ln, lo as int)
            } else {
                LineM { cells: ln.cells.map_values(|c: CharM| CharM { reverse: flag, ..c }), default: d@ }
            };
        let target = m0.map_values(f);
        assert forall|x: int| buffer@.contains_key(x) <==> target.contains_key(x) by {
            if buffer@.contains_key(x) {
                let j = choose|j: int| 0 <= j < n && buffer.entries@[j].0 == x;
                assert(orig[j].0 == x);
            }
            if m0.contains_key(x) {
                let j = choose|j: int| 0 <= j < n && orig[j].0 == x;
                assert(buffer.entries@[j].0 == x);
            }
        }
        assert forall|x: int| #[trigger] buffer@.contains_key(x) implies buffer@[x] == target[x] by {
            let j = choose|j: int| 0 <= j < n && buffer.entries@[j].0 == x;
            buffer.lemma_view_index(j);
            crate::intmap::lemma_assoc_index(orig, j);
        }
        assert(buffer@ =~= target);
        if op == 0 {
            assert(target =~= m0.map_values(|ln: LineM| trim_line(ln, lo as int, hi as int)));
        } else if op == 2 {
            assert(target =~= m0.map_values(|ln: LineM| cut_after(ln, lo as int)));
        } else {
            assert(target =~= set_reverse_all(m0, d@, flag));
        }
    }
}

/// The mode a parameter stands for.
fn mode_value_exec(m: i64, private: bool) -> (v: u32)
    ensures
        v == mode_value(m, private),
{
    if private {
        (m as u32) << 5u32
    } else {
        m as u32
    }
}

/// Whether the parameters stand for mode `v`.
fn has_mode(modes: &[i64], private: bool, v: u32) -> (b: bool)
    ensures
        b == mode_set(modes@, private).contains(v as int),
{
    let mut i: usize = 0;
    while i < modes.len()
        invariant
            i <= modes@.len(),
            forall|j: int| 0 <= j < i ==> mode_value(#[trigger] modes@[j], private) != v,
        decreases modes@.len() - i,
    {
        if mode_value_exec(modes[i], private) == v {
            assert(mode_set(modes@, private).contains(v as int));
            return true;
        }
        i = i + 1;
    }
    false
}


proof fn lemma_mode_set_push(modes: Seq<i64>, i: int, private: bool)
    requires
        0 <= i < modes.len(),
    ensures
        mode_set(modes.subrange(0, i + 1), private) == mode_set(modes.subrange(0, i), private).insert(
            mode_value(modes[i], private) as int,
        ),
{
    let a = mode_set(modes.subrange(0, i + 1), private);
    let b = mode_set(modes.subrange(0, i), private).insert(mode_value(modes[i], private) as int);
    assert forall|v: int| a.contains(v) <==> b.contains(v) by {
        if a.contains(v) {
            let j = choose|j: int| 0 <= j < i + 1 && v == mode_value(#[trigger] modes.subrange(0, i + 1)[j], private) as int;
            if j < i {
                assert(modes.subrange(0, i)[j] == modes[j]);
            }
        }
        if b.contains(v) {
            if v == mode_value(modes[i], private) as int {
                assert(modes.subrange(0, i + 1)[i] == modes[i]);
            } else {
                let j = choose|j: int| 0 <= j < i && v == mode_value(#[trigger] modes.subrange(0, i)[j], private) as int;
                assert(modes.subrange(0, i + 1)[j] == modes[j]);
            }
        }
    }
    assert(a =~= b);
}

/// Adds or removes the modes the parameters stand for.
fn update_modes(set: &mut IntSet, modes: &[i64], private: bool, add: bool)
    requires
        old(set).wf(),
    ensures
        final(set).wf(),
        add ==> final(set)@ == old(set)@.union(mode_set(modes@, private)),
        !add ==> final(set)@ == old(set)@.difference(mode_set(modes@, private)),
{
    let mut i: usize = 0;
    while i < modes.len()
        invariant
            set.wf(),
            i <= modes@.len(),
            add ==> set@ == old(set)@.union(mode_set(modes@.subrange(0, i as int), private)),
            !add ==> set@ == old(set)@.difference(mode_set(modes@.subrange(0, i as int), private)),
        decreases modes@.len() - i,
    {
        proof {
            lemma_mode_set_push(modes@, i as int, private);
        }
        let v = mode_value_exec(modes[i], private) as i64;
        if add {
            set.insert(v);
            assert(set@ =~= old(set)@.union(mode_set(modes@.subrange(0, i + 1), private)));
        } else {
            set.remove(v);
            assert(set@ =~= old(set)@.difference(mode_set(modes@.subrange(0, i + 1), private)));
        }
        i = i + 1;
    }
    assert(modes@.subrange(0, modes@.len() as int) =~= modes@);
}

/// A count parameter: absent or zero means one.
pub fn count_or_one_exec(o: Option<i64>) -> (c: i64)
    ensures
        c == count_or_one(o),
{
    match o {
        Some(c) => if c != 0 {
            c
        } else {
            1
        },
        None => 1,
    }
}


// ── scrollback paging ─────────────────────────────────────────────────────

/// How many rows one page moves: `lines * ratio`, rounded up.
pub open spec fn page_step(lines: int, h: HistoryM) -> int {
    (lines * h.ratio_num + h.ratio_den - 1) / h.ratio_den
}

/// The rows `lo..hi` of `s`, each as stored or as the fresh row that
/// writing to it creates.
pub open spec fn rows_of(s: ScreenM, lo: int, hi: int) -> Seq<LineM> {
    Seq::new((hi - lo) as nat, |i: int| line_or_new(s, lo + i))
}

/// The buffer of `s` with the rows `lo..hi` created where missing.
pub open spec fn with_rows(s: ScreenM, lo: int, hi: int) -> Map<int, LineM> {
    Map::new(|k: int| s.buffer.contains_key(k) || lo <= k < hi, |k: int| line_or_new(s, k))
}

/// `b` with the rows `y..hi` replaced by the rows `m` above them (or
/// emptied where those are missing), and the source rows left behind
/// emptied.
pub open spec fn moved_down(b: Map<int, LineM>, m: int, hi: int, y: int) -> Map<int, LineM> {
    Map::new(
        |k: int|
            if y <= k < hi {
                b.contains_key(k - m)
            } else if y - m <= k < hi - m {
                false
            } else {
                b.contains_key(k)
            },
        |k: int|
            if y <= k < hi {
                b[k - m]
            } else {
                b[k]
            },
    )
}

/// `b` with the rows `0..y` replaced by the rows `m` below them (or emptied
/// where those are missing), and the source rows left behind emptied.
pub open spec fn moved_up(b: Map<int, LineM>, m: int, y: int) -> Map<int, LineM> {
    Map::new(
        |k: int|
            if 0 <= k < y {
                b.contains_key(k + m)
            } else if m <= k < y + m {
                false
            } else {
                b.contains_key(k)
            },
        |k: int|
            if 0 <= k < y {
                b[k + m]
            } else {
                b[k]
            },
    )
}

/// `b` with each row `k` of `lo..hi` set to `t[k + off]`.
pub open spec fn with_lines_from(b: Map<int, LineM>, t: Seq<LineM>, off: int, lo: int, hi: int) -> Map<
    int,
    LineM,
> {
    Map::new(
        |k: int| b.contains_key(k) || lo <= k < hi,
        |k: int|
            if lo <= k < hi {
                t[k + off]
            } else {
                b[k]
            },
    )
}

/// Whether paging up would move the position below zero (the rows a page
/// moves exceed the position).
pub open spec fn prev_page_ok(s: ScreenM) -> bool {
    match s.history {
        Some(h) => h.position > s.lines && h.top.len() > 0 ==> min(h.top.len() as int, page_step(s.lines, h))
            <= h.position,
        None => true,
    }
}

/// `prev_page`: the screen scrolls back through history by one page. The
/// bottom rows go to the front of the bottom queue, the rest move down, and
/// the vacated top rows are filled from the end of the top queue.
#[verifier::opaque]
pub open spec fn spec_prev_page(s: ScreenM) -> ScreenM {
    match s.history {
        Some(h) => if h.position > s.lines && h.top.len() > 0 {
            let m = min(h.top.len() as int, page_step(s.lines, h));
            let l = s.lines;
            let tl = h.top.len() as int;
            ScreenM {
                buffer: with_lines_from(
                    moved_down(with_rows(s, l - m, l), m, l, min(m, l)),
                    h.top,
                    tl - m,
                    0,
                    m,
                ),
                dirty: Set::new(|y: int| 0 <= y < l),
                history: Some(
                    HistoryM {
                        top: h.top.subrange(0, tl - m),
                        bottom: keep_first(rows_of(s, l - m, l) + h.bottom, h.maxlen),
                        position: h.position - m,
                        ..h
                    },
                ),
                ..s
            }
        } else {
            s
        },
        None => s,
    }
}

/// `next_page`: the screen scrolls forward through history by one page. The
/// top rows go to the end of the top queue, the rest move up, and the
/// vacated bottom rows are filled from the front of the bottom queue.
#[verifier::opaque]
pub open spec fn spec_next_page(s: ScreenM) -> ScreenM {
    match s.history {
        Some(h) => if h.position < h.size && h.bottom.len() > 0 {
            let m = min(h.bottom.len() as int, page_step(s.lines, h));
            let l = s.lines;
            ScreenM {
                buffer: with_lines_from(
                    moved_up(with_rows(s, 0, m), m, max(0, l - m)),
                    h.bottom,
                    m - l,
                    l - m,
                    l,
                ),
                dirty: Set::new(|y: int| 0 <= y < l),
                history: Some(
                    HistoryM {
                        top: keep_last(h.top + rows_of(s, 0, m), h.maxlen),
                        bottom: h.bottom.subrange(m, h.bottom.len() as int),
                        position: h.position + m,
                        ..h
                    },
                ),
                ..s
            }
        } else {
            s
        },
        None => s,
    }
}

/// After an event on a screen with scrollback: after paging, the columns
/// beyond the width are dropped; the cursor shows only at the bottom of the
/// history with `DECTCEM` set.
pub open spec fn spec_after_event(s: ScreenM, paging: bool) -> ScreenM {
    match s.history {
        Some(h) => ScreenM {
            buffer: if paging {
                s.buffer.map_values(|l: LineM| cut_after(l, s.columns))
            } else {
                s.buffer
            },
            cursor: CursorM {
                hidden: !(h.position == h.size && s.mode.contains(mo::DECTCEM as int)),
                ..s.cursor
            },
            ..s
        },
        None => s,
    }
}

/// `set_page_ratio`: one page moves `num / den` of the screen from now on.
pub open spec fn spec_set_page_ratio(s: ScreenM, num: int, den: int) -> ScreenM {
    match s.history {
        Some(h) => ScreenM { history: Some(HistoryM { ratio_num: num, ratio_den: den, ..h }), ..s },
        None => s,
    }
}

/// Whether the view is scrolled back into history.
pub open spec fn paged_back(s: ScreenM) -> bool {
    s.history matches Some(h) && h.position < h.size
}

/// Paging forward (each page followed by its after-event step) at most `n`
/// times, until the view is back at the bottom of the history.
pub open spec fn catch_up(s: ScreenM, n: nat) -> ScreenM
    decreases n,
{
    if n == 0 || !paged_back(s) {
        s
    } else {
        catch_up(spec_after_event(spec_next_page(s), true), (n - 1) as nat)
    }
}

/// Before a non-paging event: the view returns to the bottom of the history.
pub open spec fn spec_before_event(s: ScreenM, paging: bool) -> ScreenM {
    match s.history {
        Some(h) => if paging {
            s
        } else {
            catch_up(s, h.size as nat)
        },
        None => s,
    }
}

/// `keep_first` after putting a line in front absorbs an earlier cut.
proof fn lemma_keep_first_cons(l: LineM, t: Seq<LineM>, n: int)
    requires
        n >= 0,
    ensures
        keep_first(seq![l] + keep_first(t, n), n) == keep_first(seq![l] + t, n),
{
    assert(keep_first(seq![l] + keep_first(t, n), n) =~= keep_first(seq![l] + t, n));
}

/// `keep_last` after pushing a line absorbs an earlier cut.
proof fn lemma_keep_last_push(t: Seq<LineM>, l: LineM, n: int)
    requires
        n >= 0,
    ensures
        keep_last(keep_last(t, n).push(l), n) == keep_last(t.push(l), n),
{
    assert(keep_last(keep_last(t, n).push(l), n) =~= keep_last(t.push(l), n));
}

/// A page step is positive exactly when both the height and the ratio are.
proof fn lemma_page_step(lines: int, num: int, den: int)
    requires
        lines >= 0,
        num >= 0,
        den > 0,
    ensures
        (lines * num + den - 1) / den >= 0,
        (lines * num + den - 1) / den > 0 <==> (lines > 0 && num > 0),
{
    assert((lines * num + den - 1) / den >= 0) by (nonlinear_arith)
        requires
            lines >= 0,
            num >= 0,
            den > 0,
    ;
    if lines > 0 && num > 0 {
        assert(lines * num >= 1) by (nonlinear_arith)
            requires
                lines > 0,
                num > 0,
        ;
        assert((lines * num + den - 1) / den >= 1) by (nonlinear_arith)
            requires
                lines * num >= 1,
                den > 0,
        ;
    } else {
        assert(lines * num == 0) by (nonlinear_arith)
            requires
                lines >= 0,
                num >= 0,
                !(lines > 0 && num > 0),
        ;
        assert((den - 1) / den == 0) by (nonlinear_arith)
            requires
                den > 0,
        ;
    }
}

/// `lines * num / den`, rounded up.
fn page_step_exec(lines: i64, num: u32, den: u32) -> (r: u64)
    requires
        0 <= lines <= DIM_MAX,
        den > 0,
    ensures
        r == (lines * num + den - 1) / den as int,
{
    let a: u64 = lines as u64;
    let b: u64 = num as u64;
    assert(a * b <= 0x4000_0000 * 0xffff_ffff) by (nonlinear_arith)
        requires
            a <= 0x4000_0000,
            b <= 0xffff_ffff,
    ;
    (a * b + den as u64 - 1) / (den as u64)
}

/// Moves the rows of `buffer` `m` down within `0..hi`, bottom first.
fn move_rows_down(buffer: &mut IntMap<Line>, m: i64, hi: i64)
    requires
        old(buffer).wf(),
        0 <= m <= DIM_MAX,
        0 <= hi <= DIM_MAX,
    ensures
        final(buffer).wf(),
        final(buffer)@ == moved_down(old(buffer)@, m as int, hi as int, min(m as int, hi as int)),
{
    let ghost b0 = buffer@;
    let mut y = hi;
    assert(buffer@ =~= moved_down(b0, m as int, hi as int, y as int));
    while y > m
        invariant
            buffer.wf(),
            0 <= m <= DIM_MAX,
            min(m as int, hi as int) <= y <= hi <= DIM_MAX,
            buffer@ == moved_down(b0, m as int, hi as int, y as int),
        decreases y,
    {
        y = y - 1;
        match buffer.remove(y - m) {
            Some(l) => buffer.insert(y, l),
            None => {
                buffer.remove(y);
            },
        }
        assert(buffer@ =~= moved_down(b0, m as int, hi as int, y as int));
    }
}

/// Moves the rows of `buffer` `m` up into `0..hi - m`, top first.
fn move_rows_up(buffer: &mut IntMap<Line>, m: i64, hi: i64)
    requires
        old(buffer).wf(),
        0 <= m <= DIM_MAX,
        0 <= hi <= DIM_MAX,
    ensures
        final(buffer).wf(),
        final(buffer)@ == moved_up(old(buffer)@, m as int, max(0, hi - m)),
{
    let ghost b0 = buffer@;
    let mut y: i64 = 0;
    assert(buffer@ =~= moved_up(b0, m as int, 0));
    while y < hi - m
        invariant
            buffer.wf(),
            0 <= m <= DIM_MAX,
            0 <= hi <= DIM_MAX,
            0 <= y <= max(0, hi - m),
            buffer@ == moved_up(b0, m as int, y as int),
        decreases hi - y,
    {
        match buffer.remove(y + m) {
            Some(l) => buffer.insert(y, l),
            None => {
                buffer.remove(y);
            },
        }
        assert(buffer@ =~= moved_up(b0, m as int, y + 1));
        y = y + 1;
    }
}

impl History {
    /// Removes and returns the last line of the top queue.
    fn pop_top(&mut self) -> (r: Option<Line>)
        requires
            old(self).wf(),
        ensures
            final(self).wf(),
            old(self)@.top.len() > 0 ==> (r matches Some(l) && l@ == old(self)@.top.last()
                && final(self)@ == (HistoryM { top: old(self)@.top.drop_last(), ..old(self)@ })),
            old(self)@.top.len() == 0 ==> r is None && final(self)@ == old(self)@,
    {
        let ghost t = self@.top;
        let r = self.top.pop();
        proof {
            if t.len() > 0 {
                assert(self.top@.map_values(|l: Line| l@) =~= t.drop_last());
            }
        }
        r
    }

    /// Removes and returns the first line of the bottom queue.
    fn pop_bottom_front(&mut self) -> (r: Option<Line>)
        requires
            old(self).wf(),
        ensures
            final(self).wf(),
            old(self)@.bottom.len() > 0 ==> (r matches Some(l) && l@ == old(self)@.bottom[0]
                && final(self)@ == (HistoryM { bottom: old(self)@.bottom.drop_first(), ..old(self)@ })),
            old(self)@.bottom.len() == 0 ==> r is None && final(self)@ == old(self)@,
    {
        if self.bottom.len() == 0 {
            return None;
        }
        let ghost b = self@.bottom;
        let l = self.bottom.remove(0);
        assert(self.bottom@.map_values(|l: Line| l@) =~= b.drop_first());
        Some(l)
    }

    /// Sets the paging position.
    fn set_position(&mut self, p: usize)
        requires
            old(self).wf(),
            p <= 2 * DIM_MAX,
        ensures
            final(self).wf(),
            final(self)@ == (HistoryM { position: p as int, ..old(self)@ }),
    {
        self.position = p;
    }
}

impl Screen {
    /// Copies the rows `lo..hi` (created where missing), last first, to the
    /// front of the history's bottom queue.
    fn stash_bottom(&mut self, lo: i64, hi: i64)
        requires
            old(self).wf(),
            old(self)@.history is Some,
            -DIM_MAX <= lo <= hi <= DIM_MAX,
        ensures
            final(self).wf(),
            final(self)@ == (ScreenM {
                buffer: with_rows(old(self)@, lo as int, hi as int),
                history: Some(
                    HistoryM {
                        bottom: keep_first(
                            rows_of(old(self)@, lo as int, hi as int) + old(self)@.history->Some_0.bottom,
                            old(self)@.history->Some_0.maxlen,
                        ),
                        ..old(self)@.history->Some_0
                    },
                ),
                ..old(self)@
            }),
    {
        let ghost s0 = self@;
        let ghost h0 = s0.history->Some_0;
        let mut y = hi;
        assert(rows_of(s0, hi as int, hi as int) + h0.bottom =~= h0.bottom);
        assert(keep_first(h0.bottom, h0.maxlen) == h0.bottom);
        assert(self@ =~= ScreenM {
            buffer: with_rows(s0, y as int, hi as int),
            history: Some(
                HistoryM { bottom: keep_first(rows_of(s0, y as int, hi as int) + h0.bottom, h0.maxlen), ..h0 },
            ),
            ..s0
        });
        while y > lo
            invariant
                self.wf(),
                lo <= y <= hi,
                -DIM_MAX <= lo <= hi <= DIM_MAX,
                s0.history == Some(h0),
                h0.maxlen >= 0,
                self@ == (ScreenM {
                    buffer: with_rows(s0, y as int, hi as int),
                    history: Some(
                        HistoryM {
                            bottom: keep_first(rows_of(s0, y as int, hi as int) + h0.bottom, h0.maxlen),
                            ..h0
                        },
                    ),
                    ..s0
                }),
            decreases y - lo,
        {
            y = y - 1;
            let l = self.take_line(y);
            let copy = l.dup();
            self.put_line(y, l);
            proof {
                lemma_keep_first_cons(copy@, rows_of(s0, y + 1, hi as int) + h0.bottom, h0.maxlen);
                assert(seq![copy@] + (rows_of(s0, y + 1, hi as int) + h0.bottom) =~= rows_of(
                    s0,
                    y as int,
                    hi as int,
                ) + h0.bottom);
            }
            match &mut self.history {
                Some(h) => h.push_bottom_front(copy),
                None => {},
            }
            assert(self@ =~= ScreenM {
                buffer: with_rows(s0, y as int, hi as int),
                history: Some(
                    HistoryM { bottom: keep_first(rows_of(s0, y as int, hi as int) + h0.bottom, h0.maxlen), ..h0 },
                ),
                ..s0
            });
        }
    }

    /// Copies the rows `lo..hi` (created where missing), first first, to the
    /// end of the history's top queue.
    fn stash_top(&mut self, lo: i64, hi: i64)
        requires
            old(self).wf(),
            old(self)@.history is Some,
            -DIM_MAX <= lo <= hi <= DIM_MAX,
        ensures
            final(self).wf(),
            final(self)@ == (ScreenM {
                buffer: with_rows(old(self)@, lo as int, hi as int),
                history: Some(
                    HistoryM {
                        top: keep_last(
                            old(self)@.history->Some_0.top + rows_of(old(self)@, lo as int, hi as int),
                            old(self)@.history->Some_0.maxlen,
                        ),
                        ..old(self)@.history->Some_0
                    },
                ),
                ..old(self)@
            }),
    {
        let ghost s0 = self@;
        let ghost h0 = s0.history->Some_0;
        let mut y = lo;
        assert(h0.top + rows_of(s0, lo as int, lo as int) =~= h0.top);
        assert(keep_last(h0.top, h0.maxlen) == h0.top);
        assert(self@ =~= ScreenM {
            buffer: with_rows(s0, lo as int, y as int),
            history: Some(
                HistoryM { top: keep_last(h0.top + rows_of(s0, lo as int, y as int), h0.maxlen), ..h0 },
            ),
            ..s0
        });
        while y < hi
            invariant
                self.wf(),
                lo <= y <= hi,
                -DIM_MAX <= lo <= hi <= DIM_MAX,
                s0.history == Some(h0),
                h0.maxlen >= 0,
                self@ == (ScreenM {
                    buffer: with_rows(s0, lo as int, y as int),
                    history: Some(
                        HistoryM { top: keep_last(h0.top + rows_of(s0, lo as int, y as int), h0.maxlen), ..h0 },
                    ),
                    ..s0
                }),
            decreases hi - y,
        {
            let l = self.take_line(y);
            let copy = l.dup();
            self.put_line(y, l);
            proof {
                lemma_keep_last_push(h0.top + rows_of(s0, lo as int, y as int), copy@, h0.maxlen);
                assert((h0.top + rows_of(s0, lo as int, y as int)).push(copy@) =~= h0.top + rows_of(
                    s0,
                    lo as int,
                    y + 1,
                ));
            }
            match &mut self.history {
                Some(h) => h.push_top(copy),
                None => {},
            }
            y = y + 1;
            assert(self@ =~= ScreenM {
                buffer: with_rows(s0, lo as int, y as int),
                history: Some(
                    HistoryM { top: keep_last(h0.top + rows_of(s0, lo as int, y as int), h0.maxlen), ..h0 },
                ),
                ..s0
            });
        }
    }

    /// Fills the rows `0..m` from the end of the history's top queue, the
    /// last line going to row `m - 1`.
    fn fill_from_top(&mut self, m: i64)
        requires
            old(self).wf(),
            old(self)@.history matches Some(h) && 0 <= m <= h.top.len(),
        ensures
            final(self).wf(),
            final(self)@ == ({
                let h = old(self)@.history->Some_0;
                let tl = h.top.len() as int;
                ScreenM {
                    buffer: with_lines_from(old(self)@.buffer, h.top, tl - m, 0, m as int),
                    history: Some(HistoryM { top: h.top.subrange(0, tl - m), ..h }),
                    ..old(self)@
                }
            }),
    {
        let ghost s0 = self@;
        let ghost h0 = s0.history->Some_0;
        let ghost tl = h0.top.len() as int;
        let mut y = m;
        assert(h0.top.subrange(0, tl) =~= h0.top);
        assert(self@ =~= ScreenM {
            buffer: with_lines_from(s0.buffer, h0.top, tl - m, y as int, m as int),
            history: Some(HistoryM { top: h0.top.subrange(0, tl - m + y), ..h0 }),
            ..s0
        });
        while y > 0
            invariant
                self.wf(),
                0 <= y <= m <= tl,
                s0.history == Some(h0),
                tl == h0.top.len(),
                self@ == (ScreenM {
                    buffer: with_lines_from(s0.buffer, h0.top, tl - m, y as int, m as int),
                    history: Some(HistoryM { top: h0.top.subrange(0, tl - m + y), ..h0 }),
                    ..s0
                }),
            decreases y,
        {
            y = y - 1;
            let ghost before = self@;
            let popped = match &mut self.history {
                Some(h) => h.pop_top(),
                None => None,
            };
            proof {
                let hb = before.history->Some_0;
                assert(hb.top.drop_last() =~= h0.top.subrange(0, tl - m + y));
                assert(self@ =~= ScreenM {
                    history: Some(HistoryM { top: h0.top.subrange(0, tl - m + y), ..hb }),
                    ..before
                });
            }
            match popped {
                Some(l) => self.put_line(y, l),
                None => {},
            }
            assert(self@ =~= ScreenM {
                buffer: with_lines_from(s0.buffer, h0.top, tl - m, y as int, m as int),
                history: Some(HistoryM { top: h0.top.subrange(0, tl - m + y), ..h0 }),
                ..s0
            });
        }
    }

    /// Fills the rows `lo..hi` from the front of the history's bottom queue.
    fn fill_from_bottom(&mut self, lo: i64, hi: i64)
        requires
            old(self).wf(),
            -DIM_MAX <= lo <= hi <= DIM_MAX,
            old(self)@.history matches Some(h) && hi - lo <= h.bottom.len() && h.size - h.position
                <= h.bottom.len() - (hi - lo),
        ensures
            final(self).wf(),
            final(self)@ == ({
                let h = old(self)@.history->Some_0;
                ScreenM {
                    buffer: with_lines_from(old(self)@.buffer, h.bottom, -lo, lo as int, hi as int),
                    history: Some(HistoryM { bottom: h.bottom.subrange(hi - lo, h.bottom.len() as int), ..h }),
                    ..old(self)@
                }
            }),
    {
        let ghost s0 = self@;
        let ghost h0 = s0.history->Some_0;
        let ghost bl = h0.bottom.len() as int;
        let mut y = lo;
        assert(h0.bottom.subrange(0, bl) =~= h0.bottom);
        assert(self@ =~= ScreenM {
            buffer: with_lines_from(s0.buffer, h0.bottom, -lo, lo as int, y as int),
            history: Some(HistoryM { bottom: h0.bottom.subrange(y - lo, bl), ..h0 }),
            ..s0
        });
        while y < hi
            invariant
                self.wf(),
                lo <= y <= hi,
                -DIM_MAX <= lo <= hi <= DIM_MAX,
                hi - lo <= bl,
                s0.history == Some(h0),
                bl == h0.bottom.len(),
                h0.size - h0.position <= bl - (hi - lo),
                self@ == (ScreenM {
                    buffer: with_lines_from(s0.buffer, h0.bottom, -lo, lo as int, y as int),
                    history: Some(HistoryM { bottom: h0.bottom.subrange(y - lo, bl), ..h0 }),
                    ..s0
                }),
            decreases hi - y,
        {
            let ghost before = self@;
            let popped = match &mut self.history {
                Some(h) => h.pop_bottom_front(),
                None => None,
            };
            proof {
                let hb = before.history->Some_0;
                assert(hb.bottom.drop_first() =~= h0.bottom.subrange(y - lo + 1, bl));
                assert(self@ =~= ScreenM {
                    history: Some(HistoryM { bottom: h0.bottom.subrange(y - lo + 1, bl), ..hb }),
                    ..before
                });
            }
            match popped {
                Some(l) => self.put_line(y, l),
                None => {},
            }
            y = y + 1;
            assert(self@ =~= ScreenM {
                buffer: with_lines_from(s0.buffer, h0.bottom, -lo, lo as int, y as int),
                history: Some(HistoryM { bottom: h0.bottom.subrange(y - lo, bl), ..h0 }),
                ..s0
            });
        }
    }

    /// Whether [`Screen::prev_page`] can run: the rows a page moves do not
    /// exceed the paging position.
    pub fn can_page_up(&self) -> (b: bool)
        requires
            self.wf(),
        ensures
            b == prev_page_ok(self@),
    {
        match &self.history {
            Some(h) => {
                if h.position > self.lines as usize && h.top.len() > 0 {
                    let step = page_step_exec(self.lines, h.ratio_num, h.ratio_den);
                    let m: u64 = if (h.top.len() as u64) < step {
                        h.top.len() as u64
                    } else {
                        step
                    };
                    m <= h.position as u64
                } else {
                    true
                }
            },
            None => true,
        }
    }

    /// Page up through the scrollback history.
    #[verifier::rlimit(40)]
    pub fn prev_page(&mut self)
        requires
            old(self).wf(),
            prev_page_ok(old(self)@),
        ensures
            final(self).wf(),
            final(self)@ == spec_prev_page(old(self)@),
    {
        proof {
            reveal(spec_prev_page);
        }
        let (position, top_len, num, den) = match &self.history {
            Some(h) => (h.position, h.top.len(), h.ratio_num, h.ratio_den),
            None => {
                return ;
            },
        };
        if position > self.lines as usize && top_len > 0 {
            let ghost s0 = self@;
            let ghost h0 = s0.history->Some_0;
            let lines = self.lines;
            let step = page_step_exec(lines, num, den);
            proof {
                lemma_page_step(lines as int, num as int, den as int);
            }
            let m: i64 = if (top_len as u64) < step {
                top_len as i64
            } else {
                step as i64
            };
            assert(m == min(h0.top.len() as int, page_step(s0.lines, h0)));
            self.stash_bottom(lines - m, lines);
            let ghost s1 = self@;
            match &mut self.history {
                Some(h) => h.set_position(position - m as usize),
                None => {},
            }
            let ghost s2 = self@;
            move_rows_down(&mut self.buffer, m, lines);
            let ghost s3 = self@;
            self.fill_from_top(m);
            self.dirty.clear();
            self.dirty.insert_range(0, lines);
            assert(self@.dirty =~= Set::new(|y: int| 0 <= y < lines));
            assert(self@ =~= spec_prev_page(s0));
        }
    }

    /// Page down through the scrollback history.
    #[verifier::rlimit(40)]
    pub fn next_page(&mut self)
        requires
            old(self).wf(),
        ensures
            final(self).wf(),
            final(self)@ == spec_next_page(old(self)@),
    {
        proof {
            reveal(spec_next_page);
        }
        let (position, size, bottom_len, num, den) = match &self.history {
            Some(h) => (h.position, h.size, h.bottom.len(), h.ratio_num, h.ratio_den),
            None => {
                return ;
            },
        };
        if position < size && bottom_len > 0 {
            let ghost s0 = self@;
            let ghost h0 = s0.history->Some_0;
            let lines = self.lines;
            let step = page_step_exec(lines, num, den);
            proof {
                lemma_page_step(lines as int, num as int, den as int);
            }
            let m: i64 = if (bottom_len as u64) < step {
                bottom_len as i64
            } else {
                step as i64
            };
            assert(m == min(h0.bottom.len() as int, page_step(s0.lines, h0)));
            self.stash_top(0, m);
            match &mut self.history {
                Some(h) => h.set_position(position + m as usize),
                None => {},
            }
            move_rows_up(&mut self.buffer, m, lines);
            self.fill_from_bottom(lines - m, lines);
            self.dirty.clear();
            self.dirty.insert_range(0, lines);
            assert(self@.dirty =~= Set::new(|y: int| 0 <= y < lines));
            assert(self@ =~= spec_next_page(s0));
        }
    }

    /// The step after every event on a screen with scrollback: after paging
    /// the columns beyond the width are dropped, and the cursor shows only
    /// at the bottom of the history with `DECTCEM` set.
    pub fn after_event(&mut self, paging: bool)
        requires
            old(self).wf(),
        ensures
            final(self).wf(),
            final(self)@ == spec_after_event(old(self)@, paging),
    {
        let at_bottom = match &self.history {
            Some(h) => h.position == h.size,
            None => {
                return ;
            },
        };
        if paging {
            let d = self.default_char();
            map_lines(&mut self.buffer, 2, self.columns, 0, &d, false);
        }
        self.cursor.hidden = !(at_bottom && self.mode.contains(mo::DECTCEM as i64));
        assert(self@ =~= spec_after_event(old(self)@, paging));
    }

    /// The step before every event on a screen with scrollback: unless the
    /// event pages, the view first returns to the bottom of the history.
    pub fn before_event(&mut self, paging: bool)
        requires
            old(self).wf(),
        ensures
            final(self).wf(),
            final(self)@ == spec_before_event(old(self)@, paging),
            !paging ==> !paged_back(final(self)@),
    {
        let size = match &self.history {
            Some(h) => h.size,
            None => {
                return ;
            },
        };
        if paging {
            return ;
        }
        let ghost s0 = self@;
        let ghost mut fuel: nat = size as nat;
        loop
            invariant
                self.wf(),
                self@.history is Some,
                self@.history->Some_0.size == size,
                catch_up(self@, fuel) == catch_up(s0, size as nat),
                fuel >= self@.history->Some_0.size - self@.history->Some_0.position,
            ensures
                self.wf(),
                self@ == catch_up(s0, size as nat),
                !paged_back(self@),
            decreases fuel,
        {
            let behind = match &self.history {
                Some(h) => h.position < h.size,
                None => false,
            };
            if !behind {
                break;
            }
            let ghost before = self@;
            proof {
                reveal(spec_next_page);
                let h = before.history->Some_0;
                lemma_page_step(before.lines, h.ratio_num, h.ratio_den);
            }
            self.next_page();
            self.after_event(true);
            proof {
                fuel = (fuel - 1) as nat;
            }
        }
    }
}


// ── carrying out parsed events ────────────────────────────────────────────

/// The first parameter, if there is one.
pub open spec fn arg0(args: Seq<i64>) -> Option<i64> {
    if args.len() > 0 {
        Some(args[0])
    } else {
        None
    }
}

/// The second parameter, if there is one.
pub open spec fn arg1(args: Seq<i64>) -> Option<i64> {
    if args.len() > 1 {
        Some(args[1])
    } else {
        None
    }
}

/// The first parameter, or 0.
pub open spec fn arg0_or_zero(args: Seq<i64>) -> i64 {
    if args.len() > 0 {
        args[0]
    } else {
        0
    }
}

/// What an operation does to a screen, with its parameters and private
/// flag.
#[verifier::opaque]
pub open spec fn spec_dispatch(s: ScreenM, op: Op, args: Seq<i64>, private: bool) -> ScreenM {
    let a0 = arg0(args);
    let a1 = arg1(args);
    let z0 = arg0_or_zero(args);
    match op {
        Op::Bell => s,
        Op::Backspace => spec_cursor_back(s, None),
        Op::Tab => spec_tab(s),
        Op::Linefeed => spec_linefeed(s),
        Op::CarriageReturn => spec_carriage_return(s),
        Op::ShiftOut => ScreenM { charset: 1, ..s },
        Op::ShiftIn => ScreenM { charset: 0, ..s },
        Op::Reset => spec_reset(s),
        Op::Index => spec_index(s),
        Op::ReverseIndex => spec_reverse_index(s),
        Op::SetTabStop => ScreenM { tabstops: s.tabstops.insert(s.cursor.x), ..s },
        Op::SaveCursor => spec_save_cursor(s),
        Op::RestoreCursor => spec_restore_cursor(s),
        Op::AlignmentDisplay => spec_alignment_display(s),
        Op::InsertCharacters => spec_insert_characters(s, a0),
        Op::CursorUp => spec_cursor_up(s, a0),
        Op::CursorDown => spec_cursor_down(s, a0),
        Op::CursorForward => spec_cursor_forward(s, a0),
        Op::CursorBack => spec_cursor_back(s, a0),
        Op::CursorDown1 => spec_carriage_return(spec_cursor_down(s, a0)),
        Op::CursorUp1 => spec_carriage_return(spec_cursor_up(s, a0)),
        Op::CursorToColumn => spec_cursor_to_column(s, a0),
        Op::CursorPosition => spec_cursor_position(s, a0, a1),
        Op::EraseInDisplay => spec_erase_in_display(s, a0),
        Op::EraseInLine => spec_erase_in_line(s, z0),
        Op::InsertLines => spec_insert_lines(s, a0),
        Op::DeleteLines => spec_delete_lines(s, a0),
        Op::DeleteCharacters => spec_delete_characters(s, a0),
        Op::EraseCharacters => spec_erase_characters(s, a0),
        Op::ReportDeviceAttributes => spec_report_device_attributes(s, z0, private),
        Op::CursorToLine => spec_cursor_to_line(s, a0),
        Op::ClearTabStop => spec_clear_tab_stop(s, z0),
        Op::SetMode => spec_set_mode(s, args, private),
        Op::ResetMode => spec_reset_mode(s, args, private),
        Op::SelectGraphicRendition => spec_sgr(s, args),
        Op::ReportDeviceStatus => spec_report_device_status(s, z0),
        Op::SetMargins => spec_set_margins(s, a0, a1),
        Op::Debug => s,
    }
}

/// What one parsed event does to a screen, without the steps around it.
pub open spec fn spec_apply(s: ScreenM, e: EventM) -> ScreenM {
    match e {
        EventM::Draw(t) => spec_draw(s, t),
        EventM::Dispatch(op, args, private) => spec_dispatch(s, op, args, private),
        EventM::DefineCharset(code, mode) => spec_define_charset(s, code, mode),
        EventM::SetIconName(t) => ScreenM { icon_name: t, ..s },
        EventM::SetTitle(t) => ScreenM { title: t, ..s },
    }
}

/// What one parsed event does to a screen: with scrollback, the view first
/// returns to the bottom of the history, and the cursor's visibility is
/// updated afterwards.
pub open spec fn spec_event(s: ScreenM, e: EventM) -> ScreenM {
    spec_after_event(spec_apply(spec_before_event(s, false), e), false)
}

/// A parameter as a count (zero and absence both mean one) is small.
proof fn lemma_small_count(args: Seq<i64>)
    requires
        forall|i: int| 0 <= i < args.len() ==> 0 <= #[trigger] args[i] <= 9999,
    ensures
        1 <= count_or_one(arg0(args)) <= 9999,
        1 <= count_or_one(arg1(args)) <= 9999,
        arg0(args) matches Some(v) ==> 0 <= v <= 9999,
        arg1(args) matches Some(v) ==> 0 <= v <= 9999,
{
    if args.len() > 0 {
        assert(0 <= args[0] <= 9999);
    }
    if args.len() > 1 {
        assert(0 <= args[1] <= 9999);
    }
}

impl Screen {
    /// Carries out an operation with its parameters (each in `0..=9999`, as
    /// the parser gives them) and private flag.
    #[verifier::rlimit(60)]
    pub fn dispatch_inner(&mut self, op: Op, args: &[i64], private: bool)
        requires
            old(self).wf(),
            forall|i: int| 0 <= i < args@.len() ==> 0 <= #[trigger] args@[i] <= 9999,
        ensures
            final(self).wf(),
            final(self)@ == spec_dispatch(old(self)@, op, args@, private),
    {
        proof {
            lemma_small_count(args@);
            reveal(spec_dispatch);
        }
        let a0 = if args.len() > 0 {
            Some(args[0])
        } else {
            None
        };
        let a1 = if args.len() > 1 {
            Some(args[1])
        } else {
            None
        };
        let z0 = if args.len() > 0 {
            args[0]
        } else {
            0
        };
        match op {
            Op::Bell => self.bell(),
            Op::Backspace => self.backspace(),
            Op::Tab => self.tab(),
            Op::Linefeed => self.linefeed(),
            Op::CarriageReturn => self.carriage_return(),
            Op::ShiftOut => self.shift_out(),
            Op::ShiftIn => self.shift_in(),
            Op::Reset => self.reset(),
            Op::Index => self.index(),
            Op::ReverseIndex => self.reverse_index(),
            Op::SetTabStop => self.set_tab_stop(),
            Op::SaveCursor => self.save_cursor(),
            Op::RestoreCursor => self.restore_cursor(),
            Op::AlignmentDisplay => self.alignment_display(),
            Op::InsertCharacters => self.insert_characters(a0),
            Op::CursorUp => self.cursor_up(a0),
            Op::CursorDown => self.cursor_down(a0),
            Op::CursorForward => self.cursor_forward(a0),
            Op::CursorBack => self.cursor_back(a0),
            Op::CursorDown1 => self.cursor_down1(a0),
            Op::CursorUp1 => self.cursor_up1(a0),
            Op::CursorToColumn => self.cursor_to_column(a0),
            Op::CursorPosition => self.cursor_position(a0, a1),
            Op::EraseInDisplay => self.erase_in_display(a0, private),
            Op::EraseInLine => self.erase_in_line(z0),
            Op::InsertLines => self.insert_lines(a0),
            Op::DeleteLines => self.delete_lines(a0),
            Op::DeleteCharacters => self.delete_characters(a0),
            Op::EraseCharacters => self.erase_characters(a0),
            Op::ReportDeviceAttributes => self.report_device_attributes(z0, private),
            Op::CursorToLine => self.cursor_to_line(a0),
            Op::ClearTabStop => self.clear_tab_stop(z0),
            Op::SetMode => self.set_mode(args, private),
            Op::ResetMode => self.reset_mode(args, private),
            Op::SelectGraphicRendition => self.select_graphic_rendition(args),
            Op::ReportDeviceStatus => self.report_device_status(z0),
            Op::SetMargins => self.set_margins(a0, a1),
            Op::Debug => {},
        }
    }
}

impl Listener for Screen {
    type Model = ScreenM;

    open spec fn ready(&self) -> bool {
        self.wf()
    }

    open spec fn model(&self) -> ScreenM {
        self@
    }

    open spec fn on_event(m: ScreenM, e: EventM) -> ScreenM {
        spec_event(m, e)
    }

    fn draw(&mut self, data: &str)
        ensures
            final(self)@ == spec_event(old(self)@, EventM::Draw(data@)),
    {
        self.before_event(false);
        Screen::draw(self, data);
        self.after_event(false);
    }

    fn dispatch(&mut self, op: Op, args: &[i64], private: bool)
        ensures
            final(self)@ == spec_event(old(self)@, EventM::Dispatch(op, args@, private)),
    {
        self.before_event(false);
        Screen::dispatch_inner(self, op, args, private);
        self.after_event(false);
    }

    fn define_charset(&mut self, code: char, mode: char)
        ensures
            final(self)@ == spec_event(old(self)@, EventM::DefineCharset(code, mode)),
    {
        self.before_event(false);
        Screen::define_charset(self, code, mode);
        self.after_event(false);
    }

    fn set_icon_name(&mut self, name: &str)
        ensures
            final(self)@ == spec_event(old(self)@, EventM::SetIconName(name@)),
    {
        self.before_event(false);
        Screen::set_icon_name(self, name);
        self.after_event(false);
    }

    fn set_title(&mut self, title: &str)
        ensures
            final(self)@ == spec_event(old(self)@, EventM::SetTitle(title@)),
    {
        self.before_event(false);
        Screen::set_title(self, title);
        self.after_event(false);
    }
}


// ── laws ─────────────────────────────────────────────────────────────────

/// Saving the cursor and restoring it straight away leaves the screen as it
/// was, when the cursor stands inside the screen's width and the scrolling
/// region.
pub proof fn lemma_save_restore_cursor(s: ScreenM)
    requires
        model_ok(s),
        0 <= s.cursor.x < s.columns,
        margins_or_default(s).top <= s.cursor.y <= margins_or_default(s).bottom,
    ensures
        spec_restore_cursor(spec_save_cursor(s)) == s,
{
    reveal(spec_restore_cursor);
    let t = spec_save_cursor(s);
    let sp = t.savepoints.last();
    assert(t.savepoints.drop_last() =~= s.savepoints);
    let s1 = ScreenM { savepoints: t.savepoints.drop_last(), g0: sp.g0, g1: sp.g1, charset: sp.charset, ..t };
    assert(s1 =~= s);
    let s2 = if sp.origin {
        spec_set_plain_mode(s1, mo::DECOM)
    } else {
        s1
    };
    assert(s2.mode =~= s.mode);
    let s3 = if sp.wrap {
        spec_set_plain_mode(s2, mo::DECAWM)
    } else {
        s2
    };
    assert(s3.mode =~= s.mode);
    assert(s3.buffer == s.buffer && s3.dirty == s.dirty && s3.margins == s.margins && s3.savepoints == s.savepoints);
    let s4 = ScreenM { cursor: sp.cursor, ..s3 };
    assert(s4 =~= s);
    assert(spec_ensure_hbounds(s) =~= s);
    assert(spec_ensure_vbounds(s, Some(true)) =~= s);
}

/// Resetting twice is resetting once.
pub proof fn lemma_reset_idempotent(s: ScreenM)
    ensures
        spec_reset(spec_reset(s)) == spec_reset(s),
{
    let r = spec_reset(s);
    assert(spec_reset(r).dirty =~= r.dirty);
    assert(spec_reset(r) =~= r);
}

/// Graphic rendition with no parameters, or the single parameter 0, gives
/// the cursor the default attributes.
pub proof fn lemma_sgr_reset(s: ScreenM, attrs: Seq<i64>)
    requires
        attrs.len() == 0 || attrs == seq![0i64],
    ensures
        spec_sgr(s, attrs).cursor.attrs == default_char(s),
        spec_sgr(s, attrs).cursor.x == s.cursor.x && spec_sgr(s, attrs).cursor.y == s.cursor.y,
{
}

/// After `cursor_position` the cursor stands inside a non-empty screen
/// (unless origin mode ignored a line outside the margins).
pub proof fn lemma_cursor_position_inside(s: ScreenM, line: Option<i64>, column: Option<i64>)
    requires
        model_ok(s),
        s.columns > 0,
        s.lines > 0,
        !(s.margins is Some && s.mode.contains(mo::DECOM as int)),
    ensures
        0 <= spec_cursor_position(s, line, column).cursor.x < s.columns,
        0 <= spec_cursor_position(s, line, column).cursor.y < s.lines,
{
}

/// With the view at the bottom of the history, the step before an event
/// changes nothing.
pub proof fn lemma_before_event_at_bottom(s: ScreenM, paging: bool)
    requires
        !paged_back(s),
    ensures
        spec_before_event(s, paging) == s,
{
    if let Some(h) = s.history {
        if !paging {
            assert(catch_up(s, h.size as nat) == s);
        }
    }
}


/// The rows one page up moves: a page, or the whole top queue when it holds
/// less.
pub open spec fn page_up_rows(lines: int, h: HistoryM) -> int {
    min(h.top.len() as int, page_step(lines, h))
}

proof fn lemma_zero_rows_page(s: ScreenM)
    requires
        model_ok(s),
        s.history is Some,
        page_up_rows(s.lines, s.history->Some_0) == 0,
        page_step(s.lines, s.history->Some_0) == 0 || s.history->Some_0.bottom.len() == 0,
    ensures
        spec_next_page(spec_prev_page(s)).history == s.history,
        spec_next_page(spec_prev_page(s)).cursor == s.cursor,
        spec_next_page(spec_prev_page(s)).buffer == s.buffer,
        spec_next_page(spec_prev_page(s)).mode == s.mode,
{
    reveal(spec_prev_page);
    reveal(spec_next_page);
    let h = s.history->Some_0;
    let l = s.lines;
    let p = spec_prev_page(s);
    if h.position > l && h.top.len() > 0 {
        assert(with_rows(s, l, l) =~= s.buffer);
        assert(moved_down(s.buffer, 0, l, 0) =~= s.buffer);
        assert(with_lines_from(s.buffer, h.top, h.top.len() as int, 0, 0) =~= s.buffer);
        assert(rows_of(s, l, l) + h.bottom =~= h.bottom);
        assert(h.top.subrange(0, h.top.len() as int) =~= h.top);
    }
    assert(p.buffer == s.buffer);
    assert(p.cursor == s.cursor);
    assert(p.lines == l);
    assert(p.history == s.history);
    let t = spec_next_page(p);
    if h.position < h.size && h.bottom.len() > 0 {
        assert(page_step(l, h) == 0);
        assert(with_rows(p, 0, 0) =~= s.buffer);
        assert(moved_up(s.buffer, 0, l) =~= s.buffer);
        assert(with_lines_from(s.buffer, h.bottom, -l, l, l) =~= s.buffer);
        assert(h.top + rows_of(p, 0, 0) =~= h.top);
        assert(h.bottom.subrange(0, h.bottom.len() as int) =~= h.bottom);
        assert(t.history->Some_0 =~= h);
    }
}

proof fn lemma_some_rows_page(s: ScreenM)
    requires
        model_ok(s),
        s.history is Some,
        s.history->Some_0.position > s.lines,
        s.history->Some_0.position <= s.history->Some_0.size,
        1 <= page_up_rows(s.lines, s.history->Some_0),
        s.history->Some_0.bottom.len() + page_up_rows(s.lines, s.history->Some_0)
            <= s.history->Some_0.maxlen,
        page_up_rows(s.lines, s.history->Some_0) == page_step(s.lines, s.history->Some_0)
            || s.history->Some_0.bottom.len() == 0,
    ensures
        spec_next_page(spec_prev_page(s)).history == s.history,
        spec_next_page(spec_prev_page(s)).cursor == s.cursor,
        forall|x: int, y: int|
            0 <= y < s.lines ==> #[trigger] cell_at(spec_next_page(spec_prev_page(s)), x, y) == cell_at(
                s,
                x,
                y,
            ),
{
    reveal(spec_prev_page);
    reveal(spec_next_page);
    let h = s.history->Some_0;
    let l = s.lines;
    let step = page_step(l, h);
    let m = page_up_rows(l, h);
    let tl = h.top.len() as int;
    let bl = h.bottom.len() as int;
    let p = spec_prev_page(s);
    let b1 = with_rows(s, l - m, l);
    let b3 = moved_down(b1, m, l, min(m, l));
    let rows = rows_of(s, l - m, l);
    assert(min(tl, step) == m);
    assert(keep_first(rows + h.bottom, h.maxlen) =~= rows + h.bottom);
    let hp = p.history->Some_0;
    assert(hp.top == h.top.subrange(0, tl - m));
    assert(hp.bottom == rows + h.bottom);
    assert(hp.position == h.position - m);
    assert(page_step(p.lines, hp) == step);
    assert(min(hp.bottom.len() as int, step) == m);
    let t = spec_next_page(p);
    assert(rows_of(p, 0, m) =~= h.top.subrange(tl - m, tl)) by {
        assert forall|i: int| 0 <= i < m implies rows_of(p, 0, m)[i] == h.top.subrange(tl - m, tl)[i] by {
            assert(p.buffer.contains_key(i));
        }
    }
    assert(hp.top + rows_of(p, 0, m) =~= h.top);
    assert(keep_last(h.top, h.maxlen) == h.top);
    let ht = t.history->Some_0;
    assert(ht.top == h.top);
    assert(ht.bottom =~= h.bottom);
    assert(ht =~= h);
    assert forall|x: int, y: int| 0 <= y < l implies #[trigger] cell_at(t, x, y) == cell_at(s, x, y) by {
        let c1 = with_rows(p, 0, m);
        if y >= l - m {
            assert(t.buffer.contains_key(y));
            assert(t.buffer[y] == hp.bottom[y + m - l]);
            assert(hp.bottom[y + m - l] == rows[y - (l - m)]);
            assert(rows[y - (l - m)] == line_or_new(s, y));
        } else {
            let k = y + m;
            assert(c1.contains_key(k) == p.buffer.contains_key(k));
            assert(p.buffer.contains_key(k) == b3.contains_key(k));
            assert(b3.contains_key(k) == b1.contains_key(y));
            assert(b1.contains_key(y) == s.buffer.contains_key(y));
            assert(t.buffer.contains_key(y) == s.buffer.contains_key(y));
            if s.buffer.contains_key(y) {
                assert(t.buffer[y] == c1[k]);
                assert(c1[k] == p.buffer[k]);
                assert(p.buffer[k] == b3[k]);
                assert(b3[k] == b1[y]);
                assert(b1[y] == s.buffer[y]);
            }
        }
    }
}


/// Paging up and then down again shows the same screen and leaves the
/// history and the cursor as they were. Paging up moves `page_up_rows` rows
/// (none when the top queue is empty or a page is zero rows); this holds
/// when the position is beyond the first screenful and not past the size of
/// the history, the bottom queue has room for the moved rows, and paging
/// down moves the same number back: the page was whole, or the bottom queue
/// was empty.
pub proof fn lemma_page_up_then_down(s: ScreenM)
    requires
        model_ok(s),
        s.history is Some,
        s.history->Some_0.position > s.lines,
        s.history->Some_0.position <= s.history->Some_0.size,
        s.history->Some_0.bottom.len() + page_up_rows(s.lines, s.history->Some_0)
            <= s.history->Some_0.maxlen,
        page_up_rows(s.lines, s.history->Some_0) == page_step(s.lines, s.history->Some_0)
            || s.history->Some_0.bottom.len() == 0,
    ensures
        spec_next_page(spec_prev_page(s)).history == s.history,
        spec_next_page(spec_prev_page(s)).cursor == s.cursor,
        forall|x: int, y: int|
            0 <= y < s.lines ==> #[trigger] cell_at(spec_next_page(spec_prev_page(s)), x, y) == cell_at(
                s,
                x,
                y,
            ),
{
    let h = s.history->Some_0;
    let l = s.lines;
    let step = page_step(l, h);
    assert(step >= 0) by (nonlinear_arith)
        requires
            step == (l * h.ratio_num + h.ratio_den - 1) / h.ratio_den,
            l >= 0,
            h.ratio_num >= 0,
            h.ratio_den > 0,
    ;
    if page_up_rows(l, h) == 0 {
        lemma_zero_rows_page(s);
    } else {
        lemma_some_rows_page(s);
    }
}

proof fn lemma_render_blank(s: ScreenM, y: int, x: int)
    requires
        s.buffer == Map::<int, LineM>::empty(),
        !s.mode.contains(mo::DECSCNM as int),
        spec_wcwidth(' ') == 1,
        0 <= x <= s.columns,
    ensures
        render_from(s, y, x, false) == Seq::new((s.columns - x) as nat, |i: int| ' '),
    decreases s.columns - x,
{
    if x < s.columns {
        reveal_strlit(" ");
        lemma_render_blank(s, y, x + 1);
        let d = cell_at(s, x, y).data;
        assert(d == seq![' ']);
        assert(d + Seq::new((s.columns - x - 1) as nat, |i: int| ' ') =~= Seq::new(
            (s.columns - x) as nat,
            |i: int| ' ',
        ));
    } else {
        assert(Seq::new((s.columns - x) as nat, |i: int| ' ') =~= Seq::<char>::empty());
    }
}

/// A reset leaves a blank screen of the same size: every cell reads as a
/// space in the default colors, so every row displays as `columns` spaces
/// (given the width `wcwidth(' ')` returns for a space), the cursor is
/// home, the modes are the defaults, the title and icon name are empty, and
/// every row is dirty.
pub proof fn lemma_reset_blank(s: ScreenM)
    requires
        model_ok(s),
        spec_wcwidth(' ') == 1,
    ensures
        forall|x: int, y: int| #[trigger] cell_at(spec_reset(s), x, y) == plain_char(" "@),
        spec_display(spec_reset(s)) == Seq::new(
            s.lines as nat,
            |y: int| Seq::new(s.columns as nat, |x: int| ' '),
        ),
        s.columns > 0 && s.lines > 0 ==> spec_reset(s).cursor.x == 0 && spec_reset(s).cursor.y == 0,
        spec_reset(s).mode == default_modes(),
        spec_reset(s).title.len() == 0 && spec_reset(s).icon_name.len() == 0,
        forall|y: int| 0 <= y < s.lines ==> #[trigger] spec_reset(s).dirty.contains(y),
        spec_reset(s).lines == s.lines && spec_reset(s).columns == s.columns,
{
    let r = spec_reset(s);
    assert(!default_modes().contains(mo::DECSCNM as int));
    assert forall|y: int| 0 <= y < s.lines implies #[trigger] spec_display(r)[y] == Seq::new(
        s.columns as nat,
        |x: int| ' ',
    ) by {
        lemma_render_blank(r, y, 0);
    }
    assert(spec_display(r) =~= Seq::new(s.lines as nat, |y: int| Seq::new(s.columns as nat, |x: int| ' ')));
}


/// Whether an event of this name pages through the history (`prev_page`
/// or `next_page`): such an event is not preceded by a return to the bottom
/// of the history.
pub fn is_paging_event(name: &str) -> (b: bool)
    ensures
        b == (name@ == "prev_page"@ || name@ == "next_page"@),
{
    str_eq(name, "prev_page") || str_eq(name, "next_page")
}

/// The cursor stands on a row of the screen, not right of its last column
/// plus one, and (under auto-wrap) not left of the first column.
pub open spec fn cursor_inside(s: ScreenM) -> bool {
    &&& 0 <= s.cursor.y < s.lines
    &&& s.cursor.x <= s.columns
    &&& s.mode.contains(mo::DECAWM as int) ==> 0 <= s.cursor.x
}

/// The size and margins of a screen are within the model's bounds.
pub open spec fn frame_ok(s: ScreenM) -> bool {
    &&& 0 <= s.columns <= DIM_MAX
    &&& 0 <= s.lines <= DIM_MAX
    &&& (s.margins matches Some(m) ==> 0 <= m.top < m.bottom <= s.lines - 1)
}

/// What drawing keeps of a screen: its size, margins and modes.
pub open spec fn same_frame(s: ScreenM, t: ScreenM) -> bool {
    &&& t.lines == s.lines
    &&& t.columns == s.columns
    &&& t.margins == s.margins
    &&& t.mode == s.mode
}

proof fn lemma_index_inside(s: ScreenM)
    requires
        frame_ok(s),
        0 <= s.cursor.y < s.lines,
    ensures
        0 <= spec_index(s).cursor.y < s.lines,
        spec_index(s).cursor.x == s.cursor.x,
        same_frame(s, spec_index(s)),
        s.dirty.subset_of(spec_index(s).dirty),
{
    reveal(spec_index);
}

proof fn lemma_draw_step_inside(s: ScreenM, map: Charset, raw: char)
    requires
        frame_ok(s),
        cursor_inside(s),
    ensures
        cursor_inside(draw_step(s, map, raw).0),
        same_frame(s, draw_step(s, map, raw).0),
        s.dirty.subset_of(draw_step(s, map, raw).0.dirty),
        0 <= s.cursor.x && spec_wcwidth(spec_translate(map, raw)) <= max(2, s.columns) ==> 0
            <= draw_step(s, map, raw).0.cursor.x,
{
    reveal(draw_make_room);
    reveal(draw_put);
    reveal(with_cell);
    let ch = spec_translate(map, raw);
    let w = spec_wcwidth(ch);
    let s1 = if s.cursor.x == s.columns {
        if s.mode.contains(mo::DECAWM as int) {
            let a = spec_carriage_return(dirty_row(s, s.cursor.y));
            lemma_index_inside(a);
            spec_linefeed(a)
        } else if w > 0 {
            with_x(s, s.cursor.x - w)
        } else {
            s
        }
    } else {
        s
    };
    assert(cursor_inside(s1));
    assert(same_frame(s, s1));
    let s2 = draw_make_room(s, w);
    assert(s2.cursor == s1.cursor);
    assert(same_frame(s, s2));
    assert(cursor_inside(s2));
    let r = draw_put(s2, ch, w);
    assert(same_frame(s, r.0));
    assert(cursor_inside(r.0));
}

proof fn lemma_draw_chars_inside(s: ScreenM, map: Charset, cs: Seq<char>)
    requires
        frame_ok(s),
        cursor_inside(s),
    ensures
        cursor_inside(draw_chars(s, map, cs)),
        same_frame(s, draw_chars(s, map, cs)),
        s.dirty.subset_of(draw_chars(s, map, cs).dirty),
        0 <= s.cursor.x && widths_fit(map, cs, s.columns) ==> 0 <= draw_chars(s, map, cs).cursor.x,
    decreases cs.len(),
{
    if cs.len() > 0 {
        lemma_draw_step_inside(s, map, cs[0]);
        let (s1, go) = draw_step(s, map, cs[0]);
        if go {
            lemma_draw_chars_inside(s1, map, cs.drop_first());
            if widths_fit(map, cs, s.columns) {
                assert forall|i: int| 0 <= i < cs.drop_first().len() implies #[trigger] spec_wcwidth(
                    spec_translate(map, cs.drop_first()[i]),
                ) <= max(2, s1.columns) by {
                    assert(cs.drop_first()[i] == cs[i + 1]);
                    assert(spec_wcwidth(spec_translate(map, cs[i + 1])) <= max(2, s.columns));
                }
            }
        }
        if widths_fit(map, cs, s.columns) {
            assert(spec_wcwidth(spec_translate(map, cs[0])) <= max(2, s.columns));
        }
    }
}

/// Drawing keeps the cursor on a row of the screen and not right of the
/// last column plus one, keeps the size, margins and modes, and only adds
/// dirty rows, the cursor's row among them. Under auto-wrap the cursor stays
/// at or right of the first column; without it, too, unless a character
/// drawn is wider than both the screen and two columns (the cursor steps
/// back by that width at the right edge before drawing stops there).
pub proof fn lemma_draw_inside(s: ScreenM, data: Seq<char>)
    requires
        model_ok(s),
        cursor_inside(s),
    ensures
        cursor_inside(spec_draw(s, data)),
        same_frame(s, spec_draw(s, data)),
        s.dirty.subset_of(spec_draw(s, data).dirty),
        spec_draw(s, data).dirty.contains(spec_draw(s, data).cursor.y),
        0 <= s.cursor.x && widths_fit(active_charset(s), data, s.columns) ==> 0 <= spec_draw(
            s,
            data,
        ).cursor.x,
{
    lemma_draw_chars_inside(s, active_charset(s), data);
}

} // verus!
