//! What the screen's editing operations do, stated cell by cell over the
//! screen model: cursor motion, line insertion, erasing, drawing under
//! insert mode, and graphic rendition resets.
use crate::charsets::spec_translate;
use crate::graphics as g;
use crate::modes as mo;
use crate::screens::{
    active_charset, cell_at, default_char, draw_chars, draw_make_room, draw_put, draw_step,
    insert_char_step, insert_char_steps, insert_line_step, insert_line_steps, line_get, line_or_new,
    margins_or_default, min, palette_hex, rgb_hex, sgr_from, spec_cursor_down, spec_cursor_up, spec_draw,
    spec_erase_in_display, spec_erase_in_line, spec_insert_lines, spec_sgr, with_cell, with_color,
    with_text_attr, CharM, CursorM, LineM, ScreenM,
};
use crate::wcwidth::spec_wcwidth;
use vstd::prelude::*;

verus! {

/// Whether column `x` of row `y` holds a character of its own (rather than
/// showing its row's or the screen's default).
pub open spec fn stored(s: ScreenM, x: int, y: int) -> bool {
    s.buffer.contains_key(y) && s.buffer[y].cells.contains_key(x)
}

/// Moving up `n > 0` rows lowers the row by exactly `n`, unless that would
/// pass the top margin, where the cursor stops; the column and the rest of
/// the screen stay.
pub proof fn lemma_cursor_up_moves(s: ScreenM, n: i64)
    requires
        n > 0,
    ensures
        spec_cursor_up(s, Some(n)).cursor.y == if s.cursor.y - n >= margins_or_default(s).top {
            s.cursor.y - n
        } else {
            margins_or_default(s).top as int
        },
        spec_cursor_up(s, Some(n)).cursor.x == s.cursor.x,
        spec_cursor_up(s, Some(n)).buffer == s.buffer,
{
}

/// Moving down `n > 0` rows raises the row by exactly `n`, unless that would
/// pass the bottom margin, where the cursor stops; the column and the rest of
/// the screen stay.
pub proof fn lemma_cursor_down_moves(s: ScreenM, n: i64)
    requires
        n > 0,
    ensures
        spec_cursor_down(s, Some(n)).cursor.y == if s.cursor.y + n <= margins_or_default(s).bottom {
            s.cursor.y + n
        } else {
            margins_or_default(s).bottom as int
        },
        spec_cursor_down(s, Some(n)).cursor.x == s.cursor.x,
        spec_cursor_down(s, Some(n)).buffer == s.buffer,
{
}

proof fn lemma_insert_line_steps(b: Map<int, LineM>, lo: int, c: int, bottom: int)
    requires
        c >= 1,
        lo <= bottom + 1,
    ensures
        forall|k: int|
            lo <= k < lo + c && k <= bottom ==> !#[trigger] insert_line_steps(b, lo, bottom, c, bottom).contains_key(k),
        forall|k: int|
            lo + c <= k <= bottom ==> (#[trigger] insert_line_steps(b, lo, bottom, c, bottom).contains_key(k)
                == b.contains_key(k - c)) && (b.contains_key(k - c) ==> insert_line_steps(
                b,
                lo,
                bottom,
                c,
                bottom,
            )[k] == b[k - c]),
        forall|k: int|
            k < lo || k > bottom ==> (#[trigger] insert_line_steps(b, lo, bottom, c, bottom).contains_key(k)
                == b.contains_key(k)) && (b.contains_key(k) ==> insert_line_steps(b, lo, bottom, c, bottom)[k]
                == b[k]),
    decreases bottom + 1 - lo,
{
    if lo <= bottom {
        lemma_insert_line_steps(b, lo + 1, c, bottom);
        let p = insert_line_steps(b, lo + 1, bottom, c, bottom);
        let r = insert_line_steps(b, lo, bottom, c, bottom);
        assert(r == insert_line_step(p, lo, c, bottom));
        assert(p.contains_key(lo) == b.contains_key(lo));
        assert forall|k: int| lo <= k < lo + c && k <= bottom implies !#[trigger] r.contains_key(k) by {
            if k > lo {
                assert(!p.contains_key(k));
            }
        }
        assert forall|k: int| lo + c <= k <= bottom implies (#[trigger] r.contains_key(k) == b.contains_key(
            k - c,
        )) && (b.contains_key(k - c) ==> r[k] == b[k - c]) by {
            if k == lo + c {
                assert(!p.contains_key(k));
            } else {
                assert(p.contains_key(k) == b.contains_key(k - c));
            }
        }
    }
}

/// Inserting `n >= 1` lines at a cursor row `y` inside the margins leaves
/// rows `y .. y + n - 1` (those above the bottom margin) blank, moves each
/// row `r` with `y <= r <= bottom - n` down to `r + n`, and keeps the rows
/// above the cursor and below the bottom margin.
pub proof fn lemma_insert_lines_moves(s: ScreenM, n: i64)
    requires
        n >= 1,
        margins_or_default(s).top <= s.cursor.y <= margins_or_default(s).bottom,
    ensures
        ({
            let r = spec_insert_lines(s, Some(n));
            let bottom = margins_or_default(s).bottom as int;
            &&& forall|x: int, k: int|
                s.cursor.y <= k < s.cursor.y + n && k <= bottom ==> #[trigger] cell_at(r, x, k) == default_char(s)
            &&& forall|x: int, k: int|
                s.cursor.y <= k <= bottom - n ==> #[trigger] cell_at(r, x, k + n) == cell_at(s, x, k)
            &&& forall|x: int, k: int|
                k < s.cursor.y || k > bottom ==> #[trigger] cell_at(r, x, k) == cell_at(s, x, k)
            &&& r.cursor.x == 0 && r.cursor.y == s.cursor.y
        }),
{
    let bottom = margins_or_default(s).bottom as int;
    lemma_insert_line_steps(s.buffer, s.cursor.y, n as int, bottom);
    let r = spec_insert_lines(s, Some(n));
    assert(default_char(r) == default_char(s));
    assert forall|x: int, k: int| s.cursor.y <= k <= bottom - n implies #[trigger] cell_at(r, x, k + n)
        == cell_at(s, x, k) by {
        assert(k + n - n == k);
    }
}

/// Erasing below the cursor (`None` or `Some(0)`) blanks the cursor's row
/// from the cursor column to the end with the cursor's attributes, sets every
/// character the rows below hold to those attributes (columns a row does not
/// hold keep showing its default), and keeps the rows above and the cursor's
/// row left of the cursor.
pub proof fn lemma_erase_below(s: ScreenM, how: Option<i64>)
    requires
        how == Some(0i64) || how is None,
    ensures
        ({
            let r = spec_erase_in_display(s, how);
            let y = s.cursor.y;
            &&& forall|x: int| s.cursor.x <= x < s.columns ==> #[trigger] cell_at(r, x, y) == s.cursor.attrs
            &&& forall|x: int| x < s.cursor.x ==> #[trigger] cell_at(r, x, y) == cell_at(s, x, y)
            &&& forall|x: int, k: int|
                y < k < s.lines ==> #[trigger] cell_at(r, x, k) == if stored(s, x, k) {
                    s.cursor.attrs
                } else {
                    cell_at(s, x, k)
                }
            &&& forall|x: int, k: int| k < y ==> #[trigger] cell_at(r, x, k) == cell_at(s, x, k)
        }),
{
    reveal(spec_erase_in_display);
}

proof fn lemma_insert_char_steps(l: LineM, lo: int, c: int, columns: int)
    requires
        c >= 1,
        lo <= columns + 1,
    ensures
        insert_char_steps(l, lo, columns, c, columns).default == l.default,
        forall|k: int|
            lo <= k < lo + c && k <= columns ==> #[trigger] line_get(insert_char_steps(l, lo, columns, c, columns), k)
                == l.default,
        forall|k: int|
            lo + c <= k <= columns ==> #[trigger] line_get(insert_char_steps(l, lo, columns, c, columns), k)
                == line_get(l, k - c),
        forall|k: int|
            k < lo || k > columns ==> #[trigger] line_get(insert_char_steps(l, lo, columns, c, columns), k)
                == line_get(l, k),
    decreases columns + 1 - lo,
{
    if lo <= columns {
        lemma_insert_char_steps(l, lo + 1, c, columns);
        let p = insert_char_steps(l, lo + 1, columns, c, columns);
        let r = insert_char_steps(l, lo, columns, c, columns);
        assert(r == insert_char_step(p, lo, c, columns));
        assert(line_get(p, lo) == line_get(l, lo));
        assert forall|k: int| lo <= k < lo + c && k <= columns implies #[trigger] line_get(r, k) == l.default by {
            if k > lo {
                assert(line_get(p, k) == l.default);
            }
        }
        assert forall|k: int| lo + c <= k <= columns implies #[trigger] line_get(r, k) == line_get(l, k - c) by {
            if k == lo + c {
            } else {
                assert(line_get(p, k) == line_get(l, k - c));
            }
        }
        assert forall|k: int| k < lo || k > columns implies #[trigger] line_get(r, k) == line_get(l, k) by {
            assert(line_get(p, k) == line_get(l, k));
        }
    }
}

/// Under insert mode, drawing a character of width `w` (1 or 2) at a column
/// `x` left of the right edge first moves the characters at columns `x..` of
/// the cursor's row `w` columns right (those pushed past the edge are lost),
/// then writes the character at `x`: the old character of column `x2 >= x`
/// is afterwards at `x2 + w`. Columns left of `x` and the other rows stay, and
/// the cursor advances by `w`.
pub proof fn lemma_insert_mode_draw(s: ScreenM, raw: char)
    requires
        s.mode.contains(mo::IRM as int),
        0 <= s.cursor.x < s.columns,
        spec_wcwidth(spec_translate(active_charset(s), raw)) == 1 || spec_wcwidth(
            spec_translate(active_charset(s), raw),
        ) == 2,
    ensures
        ({
            let r = spec_draw(s, seq![raw]);
            let w = spec_wcwidth(spec_translate(active_charset(s), raw));
            let x = s.cursor.x;
            let y = s.cursor.y;
            &&& forall|x2: int| x <= x2 && x2 + w < s.columns ==> #[trigger] cell_at(r, x2 + w, y) == cell_at(s, x2, y)
            &&& cell_at(r, x, y).data == seq![spec_translate(active_charset(s), raw)]
            &&& forall|x2: int| x2 < x ==> #[trigger] cell_at(r, x2, y) == cell_at(s, x2, y)
            &&& forall|x2: int, k: int| k != y ==> #[trigger] cell_at(r, x2, k) == cell_at(s, x2, k)
            &&& r.cursor.x == min(x + w, s.columns) && r.cursor.y == y
        }),
{
    reveal(draw_make_room);
    reveal(draw_put);
    reveal(with_cell);
    let map = active_charset(s);
    let ch = spec_translate(map, raw);
    let w = spec_wcwidth(ch);
    let x = s.cursor.x;
    let y = s.cursor.y;
    let cs = seq![raw];
    assert(cs.drop_first() =~= Seq::<char>::empty());
    assert(cs[0] == raw && cs.len() == 1);
    assert(draw_chars(s, map, cs) == draw_step(s, map, raw).0) by {
        let (s1, go) = draw_step(s, map, raw);
        assert(draw_chars(s1, map, cs.drop_first()) == s1);
    }
    let s2 = draw_make_room(s, w);
    let l0 = line_or_new(s, y);
    let l1 = insert_char_steps(l0, x, s.columns, w, s.columns);
    lemma_insert_char_steps(l0, x, w, s.columns);
    assert(s2.buffer == s.buffer.insert(y, l1));
    assert(s2.cursor == s.cursor);
    assert(default_char(s2) == default_char(s));
    let r = spec_draw(s, cs);
    assert forall|x2: int| x <= x2 && x2 + w < s.columns implies #[trigger] cell_at(r, x2 + w, y) == cell_at(
        s,
        x2,
        y,
    ) by {
        assert(line_get(l1, x2 + w) == line_get(l0, x2 + w - w));
        assert(x2 + w - w == x2);
    }
    assert forall|x2: int| x2 < x implies #[trigger] cell_at(r, x2, y) == cell_at(s, x2, y) by {
        assert(line_get(l1, x2) == line_get(l0, x2));
    }
}

/// Whether no parameter before position `i` starts an extended color (38 or
/// 48), which would take the parameters after it as its arguments.
pub open spec fn no_extended_color_before(attrs: Seq<i64>, i: int) -> bool {
    forall|j: int| 0 <= j < i ==> #[trigger] attrs[j] != g::FG_256 && attrs[j] != g::BG_256
}

proof fn lemma_sgr_shift(dc: CharM, attrs: Seq<i64>, off: int, n: int)
    requires
        0 <= off <= n,
        off <= attrs.len(),
    ensures
        forall|w: CharM|
            #[trigger] sgr_from(dc, attrs, n, w) == sgr_from(
                dc,
                attrs.subrange(off, attrs.len() as int),
                n - off,
                w,
            ),
    decreases attrs.len() - n,
{
    let sub = attrs.subrange(off, attrs.len() as int);
    if n < attrs.len() {
        lemma_sgr_shift(dc, attrs, off, n + 1);
        if n + 2 <= attrs.len() {
            lemma_sgr_shift(dc, attrs, off, n + 2);
        }
        if n + 3 <= attrs.len() {
            lemma_sgr_shift(dc, attrs, off, n + 3);
        }
        if n + 5 <= attrs.len() {
            lemma_sgr_shift(dc, attrs, off, n + 5);
        }
        let k = n - off;
        assert(sub.len() == attrs.len() - off);
        assert forall|w: CharM| #[trigger] sgr_from(dc, attrs, n, w) == sgr_from(dc, sub, k, w) by {
            let a = attrs[n];
            assert(sub[k] == a);
            if a != g::FG_256 && a != g::BG_256 {
                lemma_sgr_simple_step(dc, attrs, n, w);
                lemma_sgr_simple_step(dc, sub, k, w);
                let w1 = sgr_simple(dc, a, w);
                assert(sgr_from(dc, attrs, n + 1, w1) == sgr_from(dc, sub, (n + 1) - off, w1));
                assert((n + 1) - off == k + 1);
            } else {
                assert(a != 0 && g::spec_fg_ansi(a) is None && g::spec_bg_ansi(a) is None && g::spec_text_attr(a) is None
                    && g::spec_fg_aixterm(a) is None && g::spec_bg_aixterm(a) is None) by {
                    reveal(g::spec_fg_ansi);
                    reveal(g::spec_bg_ansi);
                    reveal(g::spec_text_attr);
                    reveal(g::spec_fg_aixterm);
                    reveal(g::spec_bg_aixterm);
                }
                if n + 1 < attrs.len() {
                    assert(sub[k + 1] == attrs[n + 1]);
                    let is_fg = a == g::FG_256;
                    if attrs[n + 1] == 5 {
                        if n + 2 < attrs.len() {
                            assert(sub[k + 2] == attrs[n + 2]);
                            let m = attrs[n + 2];
                            let w2 = if 0 <= m < 256 {
                                with_color(w, is_fg, palette_hex(m as int))
                            } else {
                                w
                            };
                            assert(sgr_from(dc, attrs, n + 3, w2) == sgr_from(dc, sub, (n + 3) - off, w2));
                            assert((n + 3) - off == k + 3);
                            assert(sgr_from(dc, attrs, n, w) == sgr_from(dc, sub, k, w));
                        } else {
                            assert(sgr_from(dc, attrs, n, w) == sgr_from(dc, sub, k, w));
                        }
                    } else if attrs[n + 1] == 2 {
                        if n + 4 < attrs.len() {
                            assert(sub[k + 2] == attrs[n + 2]);
                            assert(sub[k + 3] == attrs[n + 3]);
                            assert(sub[k + 4] == attrs[n + 4]);
                            let w3 = with_color(w, is_fg, rgb_hex(attrs[n + 2], attrs[n + 3], attrs[n + 4]));
                            assert(sgr_from(dc, attrs, n + 5, w3) == sgr_from(dc, sub, (n + 5) - off, w3));
                            assert((n + 5) - off == k + 5);
                            assert(sgr_from(dc, attrs, n, w) == sgr_from(dc, attrs, n + 5, w3));
                            assert(sgr_from(dc, sub, k, w) == sgr_from(dc, sub, k + 5, w3));
                        } else {
                            assert(sgr_from(dc, attrs, n + 2, w) == sgr_from(dc, sub, (n + 2) - off, w));
                            assert((n + 2) - off == k + 2);
                            assert(sgr_from(dc, attrs, n, w) == sgr_from(dc, attrs, n + 2, w));
                            assert(sgr_from(dc, sub, k, w) == sgr_from(dc, sub, k + 2, w));
                        }
                    } else {
                        assert(sgr_from(dc, attrs, n + 2, w) == sgr_from(dc, sub, (n + 2) - off, w));
                        assert((n + 2) - off == k + 2);
                        assert(sgr_from(dc, attrs, n, w) == sgr_from(dc, sub, k, w));
                    }
                } else {
                    assert(sgr_from(dc, attrs, n, w) == sgr_from(dc, sub, k, w));
                }
            }
        }
    }
}

/// One parameter that is not an extended color, applied to `w`.
spec fn sgr_simple(dc: CharM, a: i64, w: CharM) -> CharM {
    if a == 0 {
        dc
    } else if g::spec_fg_ansi(a) is Some {
        CharM { fg: g::spec_fg_ansi(a)->Some_0, ..w }
    } else if g::spec_bg_ansi(a) is Some {
        CharM { bg: g::spec_bg_ansi(a)->Some_0, ..w }
    } else if g::spec_text_attr(a) is Some {
        with_text_attr(w, g::spec_text_attr(a)->Some_0.0, g::spec_text_attr(a)->Some_0.1)
    } else if g::spec_fg_aixterm(a) is Some {
        CharM { fg: g::spec_fg_aixterm(a)->Some_0, ..w }
    } else if g::spec_bg_aixterm(a) is Some {
        CharM { bg: g::spec_bg_aixterm(a)->Some_0, ..w }
    } else {
        w
    }
}

proof fn lemma_sgr_simple_step(dc: CharM, attrs: Seq<i64>, j: int, w: CharM)
    requires
        0 <= j < attrs.len(),
        attrs[j] != g::FG_256 && attrs[j] != g::BG_256,
    ensures
        sgr_from(dc, attrs, j, w) == sgr_from(dc, attrs, j + 1, sgr_simple(dc, attrs[j], w)),
{
    let a = attrs[j];
    if a == 0 {
    } else if g::spec_fg_ansi(a) is Some {
    } else if g::spec_bg_ansi(a) is Some {
    } else if g::spec_text_attr(a) is Some {
    } else if g::spec_fg_aixterm(a) is Some {
    } else if g::spec_bg_aixterm(a) is Some {
    } else {
    }
}

proof fn lemma_sgr_reset_from(dc: CharM, attrs: Seq<i64>, j: int, i: int)
    requires
        0 <= j <= i < attrs.len(),
        attrs[i] == 0,
        no_extended_color_before(attrs, i),
    ensures
        forall|w: CharM| #[trigger] sgr_from(dc, attrs, j, w) == sgr_from(dc, attrs, i + 1, dc),
    decreases i - j,
{
    if j < i {
        lemma_sgr_reset_from(dc, attrs, j + 1, i);
        assert(attrs[j] != g::FG_256 && attrs[j] != g::BG_256);
        assert forall|w: CharM| #[trigger] sgr_from(dc, attrs, j, w) == sgr_from(dc, attrs, i + 1, dc) by {
            lemma_sgr_simple_step(dc, attrs, j, w);
        }
    } else {
        assert forall|w: CharM| #[trigger] sgr_from(dc, attrs, j, w) == sgr_from(dc, attrs, i + 1, dc) by {
            assert(attrs[j] == 0);
        }
    }
}

/// A parameter 0 that is no extended color's argument (no 38 or 48 comes
/// before it) resets the attributes: the attributes SGR gives are those the
/// parameters after the 0 give to a cursor with the default attributes,
/// whatever the cursor's attributes and the parameters before the 0 were.
pub proof fn lemma_sgr_reset_param(s: ScreenM, attrs: Seq<i64>, i: int)
    requires
        0 <= i < attrs.len(),
        attrs[i] == 0,
        no_extended_color_before(attrs, i),
    ensures
        spec_sgr(s, attrs).cursor.attrs == spec_sgr(
            ScreenM { cursor: CursorM { attrs: default_char(s), ..s.cursor }, ..s },
            attrs.subrange(i + 1, attrs.len() as int),
        ).cursor.attrs,
{
    let dc = default_char(s);
    let rest = attrs.subrange(i + 1, attrs.len() as int);
    lemma_sgr_reset_from(dc, attrs, 0, i);
    lemma_sgr_shift(dc, attrs, i + 1, i + 1);
    assert(sgr_from(dc, attrs, i + 1, dc) == sgr_from(dc, rest, 0, dc));
    if rest == seq![0i64] {
        assert(sgr_from(dc, rest, 0, dc) == sgr_from(dc, rest, 1, dc));
    }
}

/// Erasing in the cursor's row: to the end (0) blanks the columns from the
/// cursor to the last, to the start (1) those from the first through the
/// cursor, all (2) every column, each with the cursor's attributes; the other
/// columns and rows stay, and any other `how` changes no character.
pub proof fn lemma_erase_in_line_cells(s: ScreenM, how: i64)
    ensures
        ({
            let r = spec_erase_in_line(s, how);
            let y = s.cursor.y;
            let (lo, hi) = if how == 0 {
                (s.cursor.x, s.columns)
            } else if how == 1 {
                (0, s.cursor.x + 1)
            } else if how == 2 {
                (0, s.columns)
            } else {
                (0, 0)
            };
            &&& forall|x: int| lo <= x < hi ==> #[trigger] cell_at(r, x, y) == s.cursor.attrs
            &&& forall|x: int| !(lo <= x < hi) ==> #[trigger] cell_at(r, x, y) == cell_at(s, x, y)
            &&& forall|x: int, k: int| k != y ==> #[trigger] cell_at(r, x, k) == cell_at(s, x, k)
        }),
{
}

/// Erasing above the cursor (1) sets every character the rows above hold to
/// the cursor's attributes and blanks the cursor's row from its first column
/// through the cursor; erasing everything (2) sets every character any row
/// of the screen holds. Columns a row does not hold keep showing its default;
/// the rows not erased stay.
pub proof fn lemma_erase_above_and_all(s: ScreenM)
    ensures
        ({
            let r = spec_erase_in_display(s, Some(1i64));
            let y = s.cursor.y;
            &&& forall|x: int| 0 <= x <= s.cursor.x ==> #[trigger] cell_at(r, x, y) == s.cursor.attrs
            &&& forall|x: int| x < 0 || x > s.cursor.x ==> #[trigger] cell_at(r, x, y) == cell_at(s, x, y)
            &&& forall|x: int, k: int|
                0 <= k < y ==> #[trigger] cell_at(r, x, k) == if stored(s, x, k) {
                    s.cursor.attrs
                } else {
                    cell_at(s, x, k)
                }
            &&& forall|x: int, k: int| k > y || (k < 0 && k != y) ==> #[trigger] cell_at(r, x, k) == cell_at(s, x, k)
        }),
        ({
            let r = spec_erase_in_display(s, Some(2i64));
            &&& forall|x: int, k: int|
                0 <= k < s.lines ==> #[trigger] cell_at(r, x, k) == if stored(s, x, k) {
                    s.cursor.attrs
                } else {
                    cell_at(s, x, k)
                }
            &&& forall|x: int, k: int| k < 0 || k >= s.lines ==> #[trigger] cell_at(r, x, k) == cell_at(s, x, k)
        }),
{
    reveal(spec_erase_in_display);
}

/// An extended color sets one color and keeps every other attribute:
/// `38;5;m` / `48;5;m` with `0 <= m < 256` give the foreground / background
/// entry `m` of the 256-color table, and `38;2;r;g;b` / `48;2;r;g;b` the true
/// color `rrggbb`.
pub proof fn lemma_sgr_extended_colors(s: ScreenM, m: i64, r: i64, gg: i64, b: i64)
    requires
        0 <= m < 256,
    ensures
        spec_sgr(s, seq![38i64, 5, m]).cursor.attrs == (CharM { fg: palette_hex(m as int), ..s.cursor.attrs }),
        spec_sgr(s, seq![48i64, 5, m]).cursor.attrs == (CharM { bg: palette_hex(m as int), ..s.cursor.attrs }),
        spec_sgr(s, seq![38i64, 2, r, gg, b]).cursor.attrs == (CharM { fg: rgb_hex(r, gg, b), ..s.cursor.attrs }),
        spec_sgr(s, seq![48i64, 2, r, gg, b]).cursor.attrs == (CharM { bg: rgb_hex(r, gg, b), ..s.cursor.attrs }),
{
    reveal(g::spec_fg_ansi);
    reveal(g::spec_bg_ansi);
    reveal(g::spec_text_attr);
    reveal(g::spec_fg_aixterm);
    reveal(g::spec_bg_aixterm);
    let dc = default_char(s);
    let w = s.cursor.attrs;
    assert(seq![38i64, 5, m] != seq![0i64]) by {
        assert(seq![38i64, 5, m].len() != seq![0i64].len());
    }
    assert(seq![48i64, 5, m] != seq![0i64]) by {
        assert(seq![48i64, 5, m].len() != seq![0i64].len());
    }
    assert(seq![38i64, 2, r, gg, b] != seq![0i64]) by {
        assert(seq![38i64, 2, r, gg, b].len() != seq![0i64].len());
    }
    assert(seq![48i64, 2, r, gg, b] != seq![0i64]) by {
        assert(seq![48i64, 2, r, gg, b].len() != seq![0i64].len());
    }
    assert(sgr_from(dc, seq![38i64, 5, m], 3, CharM { fg: palette_hex(m as int), ..w }) == (CharM { fg: palette_hex(m as int), ..w }));
    assert(sgr_from(dc, seq![48i64, 5, m], 3, CharM { bg: palette_hex(m as int), ..w }) == (CharM { bg: palette_hex(m as int), ..w }));
    assert(sgr_from(dc, seq![38i64, 2, r, gg, b], 5, CharM { fg: rgb_hex(r, gg, b), ..w }) == (CharM { fg: rgb_hex(r, gg, b), ..w }));
    assert(sgr_from(dc, seq![48i64, 2, r, gg, b], 5, CharM { bg: rgb_hex(r, gg, b), ..w }) == (CharM { bg: rgb_hex(r, gg, b), ..w }));
}

} // verus!
