use stryke_terminal::common::Session;
use stryke_terminal::graphics::{bg_aixterm, bg_ansi, fg_aixterm, fg_ansi, text};
use stryke_terminal::screens::{is_paging_event, Char, Screen};
use stryke_terminal::streams::Stream;
use stryke_terminal::wcwidth::{combining, wcwidth};

fn session(columns: i64, lines: i64) -> Session {
    Session { screen: Screen::new(columns, lines), stream: Stream::new_bytes() }
}

fn history_session(columns: i64, lines: i64, size: usize) -> Session {
    Session {
        screen: Screen::with_history(columns, lines, size, 1, 2),
        stream: Stream::new_bytes(),
    }
}

#[test]
fn readme_colored_text() {
    let mut t = session(80, 24);
    t.feed_str("\x1b[1;32mBUILD OK\x1b[0m");
    let c = t.screen.cell(0, 0);
    assert_eq!(c.data, "B");
    assert_eq!(c.fg, "green");
    assert!(c.bold);
    assert_eq!(t.screen.display()[0].trim_end(), "BUILD OK");
    let after = t.screen.cursor.attrs.dup();
    assert_eq!(after.fg, "default");
    assert!(!after.bold);
}

#[test]
fn readme_cursor_move() {
    let mut t = session(80, 24);
    t.feed_str("\x1b[3;1Hline three");
    let d = t.screen.display();
    assert_eq!(d.len(), 24);
    assert_eq!(d[2].trim_end(), "line three");
    assert_eq!(d[2].chars().count(), 80);
    assert_eq!((t.screen.cursor.x, t.screen.cursor.y), (10, 2));
}

#[test]
fn fresh_screen_is_blank() {
    let s = Screen::new(4, 2);
    assert_eq!(s.display(), vec!["    ".to_string(), "    ".to_string()]);
    let c = s.cell(3, 1);
    assert_eq!(c.data, " ");
    assert_eq!(c.fg, "default");
    assert_eq!(c.bg, "default");
    assert_eq!(s.mode_sorted(), vec![7 << 5, 25 << 5]);
    assert!(!s.has_history());
}

#[test]
fn wrapping_and_scrolling() {
    let mut t = session(3, 2);
    t.feed_str("abcdefgh");
    assert_eq!(t.screen.display(), vec!["def".to_string(), "gh ".to_string()]);
}

#[test]
fn wide_characters_take_two_columns() {
    let mut t = session(4, 1);
    t.feed_str("你a");
    assert_eq!(t.screen.cell(0, 0).data, "你");
    assert_eq!(t.screen.cell(1, 0).data, "");
    assert_eq!(t.screen.display(), vec!["你a ".to_string()]);
}

#[test]
fn combining_marks_join_the_previous_cell() {
    let mut t = session(4, 1);
    t.feed_str("e\u{301}x");
    assert_eq!(t.screen.cell(0, 0).data, "\u{e9}");
    assert_eq!(t.screen.cell(1, 0).data, "x");
}

#[test]
fn erase_and_insert() {
    let mut t = session(5, 1);
    t.feed_str("abcde\x1b[1G\x1b[2@");
    assert_eq!(t.screen.display(), vec!["  abc".to_string()]);
    t.feed_str("\x1b[2P");
    assert_eq!(t.screen.display(), vec!["abcd ".to_string()]);
    t.feed_str("\x1b[3G\x1b[K");
    assert_eq!(t.screen.display(), vec!["ab   ".to_string()]);
}

#[test]
fn erase_in_display_clears_everything() {
    let mut t = session(3, 2);
    t.feed_str("abc\r\nxyz\x1b[2J");
    assert_eq!(t.screen.display(), vec!["   ".to_string(), "   ".to_string()]);
}

#[test]
fn device_status_reports_cursor_position() {
    let mut t = session(10, 5);
    t.feed_str("\x1b[2;5H\x1b[6n\x1b[5n");
    assert_eq!(t.screen.take_outgoing(), "\x1b[2;5R\x1b[0n");
    assert_eq!(t.screen.take_outgoing(), "");
}

#[test]
fn device_attributes_reply() {
    let mut t = session(10, 5);
    t.feed_str("\x1b[c\x1b[?c");
    assert_eq!(t.screen.take_outgoing(), "\x1b[?6c");
}

#[test]
fn sgr_256_and_truecolor() {
    let mut t = session(10, 1);
    t.feed_str("\x1b[38;5;196mA\x1b[48;2;1;2;255mB\x1b[0mC");
    assert_eq!(t.screen.cell(0, 0).fg, "ff0000");
    let b = t.screen.cell(1, 0);
    assert_eq!(b.fg, "ff0000");
    assert_eq!(b.bg, "0102ff");
    assert_eq!(t.screen.cell(2, 0).fg, "default");
}

#[test]
fn sgr_text_flags() {
    let mut t = session(10, 1);
    t.feed_str("\x1b[1;3;4;5;7;9mA\x1b[22;23mB");
    let a = t.screen.cell(0, 0);
    assert!(a.bold && a.italics && a.underscore && a.blink && a.reverse && a.strikethrough);
    let b = t.screen.cell(1, 0);
    assert!(!b.bold && !b.italics && b.underscore);
}

#[test]
fn title_and_icon_name() {
    let mut t = session(10, 1);
    t.feed_str("\x1b]0;hello\x07");
    assert_eq!(t.screen.title, "hello");
    assert_eq!(t.screen.icon_name, "hello");
    t.feed_str("\x1b]2;only title\x1b\\");
    assert_eq!(t.screen.title, "only title");
    assert_eq!(t.screen.icon_name, "hello");
}

#[test]
fn save_and_restore_cursor() {
    let mut t = session(10, 5);
    t.feed_str("\x1b[3;4H\x1b7\x1b[1;1H\x1b8");
    assert_eq!((t.screen.cursor.x, t.screen.cursor.y), (3, 2));
}

#[test]
fn margins_limit_scrolling() {
    let mut t = session(2, 4);
    t.feed_str("a\r\nb\r\nc\r\nd\x1b[2;3r\x1b[3;1H\n");
    assert_eq!(
        t.screen.display(),
        vec!["a ".to_string(), "c ".to_string(), "  ".to_string(), "d ".to_string()]
    );
}

#[test]
fn tabs_move_to_the_next_stop() {
    let mut t = session(20, 1);
    t.feed_str("a\tb");
    assert_eq!(t.screen.cell(8, 0).data, "b");
    t.feed_str("\x1b[3g\r\tc");
    assert_eq!(t.screen.cursor.x, 20 - 1 + 1);
}

#[test]
fn alignment_display_fills_with_e() {
    let mut t = session(2, 2);
    t.feed_str("\x1b#8");
    assert_eq!(t.screen.display(), vec!["EE".to_string(), "EE".to_string()]);
}

#[test]
fn dirty_lines_and_clearing() {
    let mut s = Screen::new(3, 3);
    assert_eq!(s.dirty_sorted(), vec![0, 1, 2]);
    s.clear_dirty();
    assert!(s.dirty_sorted().is_empty());
    s.draw("x");
    assert_eq!(s.dirty_sorted(), vec![0]);
}

#[test]
fn resize_keeps_the_bottom_lines() {
    let mut t = session(3, 3);
    t.feed_str("a\r\nb\r\nc");
    t.screen.resize(Some(2), Some(2));
    assert_eq!((t.screen.columns, t.screen.lines), (2, 2));
    assert_eq!(t.screen.display(), vec!["b ".to_string(), "c ".to_string()]);
}

#[test]
fn reverse_screen_mode() {
    let mut t = session(2, 1);
    t.feed_str("\x1b[?5h");
    assert!(t.screen.cell(0, 0).reverse);
    t.feed_str("\x1b[?5l");
    assert!(!t.screen.cell(0, 0).reverse);
}

#[test]
fn cursor_visibility_mode() {
    let mut t = session(2, 1);
    t.feed_str("\x1b[?25l");
    assert!(!t.screen.mode_sorted().contains(&(25 << 5)));
    t.feed_str("\x1b[?25h");
    assert!(t.screen.mode_sorted().contains(&(25 << 5)));
}

#[test]
fn line_drawing_charset() {
    let mut t = Session { screen: Screen::new(3, 1), stream: Stream::new_bytes() };
    t.feed_bytes(b"\x1b%@\x1b(0qx\x1b(B");
    assert_eq!(t.screen.cell(0, 0).data, "\u{2500}");
    assert_eq!(t.screen.cell(1, 0).data, "\u{2502}");
}

#[test]
fn paging_back_and_forth() {
    let mut t = history_session(5, 2, 10);
    t.feed_str("a\r\nb\r\nc\r\nd");
    assert_eq!(t.screen.display(), vec!["c    ".to_string(), "d    ".to_string()]);
    assert_eq!(t.screen.history_state(), Some((10, 10, 2, 0)));
    assert!(t.screen.can_page_up());
    t.screen.prev_page();
    t.screen.after_event(true);
    assert_eq!(t.screen.display(), vec!["b    ".to_string(), "c    ".to_string()]);
    assert_eq!(t.screen.history_state(), Some((9, 10, 1, 1)));
    assert!(t.screen.cursor.hidden);
    t.screen.next_page();
    t.screen.after_event(true);
    assert_eq!(t.screen.display(), vec!["c    ".to_string(), "d    ".to_string()]);
    assert_eq!(t.screen.history_state(), Some((10, 10, 2, 0)));
    assert!(!t.screen.cursor.hidden);
}

#[test]
fn feeding_returns_to_the_bottom_of_history() {
    let mut t = history_session(5, 2, 10);
    t.feed_str("a\r\nb\r\nc\r\nd");
    t.screen.prev_page();
    t.screen.after_event(true);
    t.feed_str("!");
    assert_eq!(t.screen.history_state(), Some((10, 10, 2, 0)));
    assert_eq!(t.screen.display(), vec!["c    ".to_string(), "d!   ".to_string()]);
}

#[test]
fn reset_clears_the_screen_and_history() {
    let mut t = history_session(3, 2, 5);
    t.feed_str("a\r\nb\r\nc\x1b]2;t\x07");
    t.screen.reset();
    assert_eq!(t.screen.display(), vec!["   ".to_string(), "   ".to_string()]);
    assert_eq!(t.screen.title, "");
    assert_eq!(t.screen.history_state(), Some((5, 5, 0, 0)));
}

#[test]
fn graphics_tables() {
    assert_eq!(text(1), Some("+bold"));
    assert_eq!(text(29), Some("-strikethrough"));
    assert_eq!(text(2), None);
    assert_eq!(fg_ansi(31), Some("red"));
    assert_eq!(fg_ansi(39), Some("default"));
    assert_eq!(bg_ansi(44), Some("blue"));
    assert_eq!(fg_aixterm(91), Some("brightred"));
    assert_eq!(bg_aixterm(107), Some("brightwhite"));
    assert_eq!(bg_aixterm(105), Some("bfightmagenta"));
    assert_eq!(bg_aixterm(40), None);
}

#[test]
fn character_widths() {
    assert_eq!(wcwidth('a'), 1);
    assert_eq!(wcwidth('你'), 2);
    assert_eq!(wcwidth('\u{301}'), 0);
    assert_eq!(wcwidth('\x07'), -1);
    assert!(combining('\u{301}'));
    assert!(!combining('a'));
}

#[test]
fn char_new_has_default_colors() {
    let c = Char::new("x");
    assert_eq!(c.data, "x");
    assert_eq!((c.fg.as_str(), c.bg.as_str()), ("default", "default"));
    assert!(!c.bold && !c.reverse);
}

#[test]
fn resetting_twice_is_resetting_once() {
    let mut t = session(4, 2);
    t.feed_str("ab\x1b[?5h\x1b]2;x\x07");
    t.screen.reset();
    let once = (t.screen.display(), t.screen.dirty_sorted(), t.screen.mode_sorted(), t.screen.cursor.x);
    t.screen.reset();
    let twice = (t.screen.display(), t.screen.dirty_sorted(), t.screen.mode_sorted(), t.screen.cursor.x);
    assert_eq!(once, twice);
}

#[test]
fn cursor_position_is_clamped_into_the_screen() {
    let mut s = Screen::new(10, 5);
    s.cursor_position(Some(999), Some(999));
    assert_eq!((s.cursor.x, s.cursor.y), (9, 4));
    s.cursor_position(None, None);
    assert_eq!((s.cursor.x, s.cursor.y), (0, 0));
}

#[test]
fn a_plain_screen_has_no_history() {
    let mut s = Screen::new(3, 3);
    assert_eq!(s.history_state(), None);
    s.prev_page();
    s.next_page();
    assert_eq!(s.display(), vec!["   ".to_string(), "   ".to_string(), "   ".to_string()]);
}

#[test]
fn paging_up_past_the_start_is_refused() {
    let mut s = Screen::with_history(5, 1, 5, 3, 1);
    for ch in ["a", "b", "c", "d", "e"] {
        s.draw(ch);
        s.carriage_return();
        s.linefeed();
    }
    assert_eq!(s.history_state(), Some((5, 5, 5, 0)));
    assert!(s.can_page_up());
    s.prev_page();
    assert_eq!(s.history_state(), Some((2, 5, 2, 3)));
    s.index();
    s.index();
    s.index();
    assert_eq!(s.history_state(), Some((2, 5, 5, 3)));
    assert!(!s.can_page_up());
}

#[test]
fn paging_with_less_than_a_page_of_history() {
    let mut t = Session { screen: Screen::with_history(5, 2, 10, 1, 1), stream: Stream::new_bytes() };
    t.feed_str("a\r\nb\r\nc");
    assert_eq!(t.screen.history_state(), Some((10, 10, 1, 0)));
    let before = t.screen.display();
    t.screen.prev_page();
    assert_eq!(t.screen.display(), vec!["a    ".to_string(), "b    ".to_string()]);
    assert_eq!(t.screen.history_state(), Some((9, 10, 0, 1)));
    t.screen.next_page();
    assert_eq!(t.screen.display(), before);
    assert_eq!(t.screen.history_state(), Some((10, 10, 1, 0)));
}

#[test]
fn only_paging_events_page() {
    assert!(is_paging_event("prev_page"));
    assert!(is_paging_event("next_page"));
    assert!(!is_paging_event("draw"));
    assert!(!is_paging_event("prev_pag"));
    assert!(!is_paging_event(""));
}

#[test]
fn drawing_keeps_the_cursor_inside_and_marks_rows_dirty() {
    let mut s = Screen::new(3, 2);
    s.clear_dirty();
    s.draw("abcdefgh");
    assert!(s.cursor.x >= 0 && s.cursor.x <= 3);
    assert!(s.cursor.y >= 0 && s.cursor.y < 2);
    assert!(s.dirty_sorted().contains(&s.cursor.y));
}

#[test]
fn a_reset_screen_is_blank() {
    let mut t = session(4, 3);
    t.feed_str("\x1b[1;31mabc\r\ndef\x1b[?5h");
    t.screen.reset();
    assert_eq!(t.screen.display(), vec!["    ".to_string(); 3]);
    assert_eq!((t.screen.cursor.x, t.screen.cursor.y), (0, 0));
    assert_eq!(t.screen.mode_sorted(), vec![7 << 5, 25 << 5]);
    assert_eq!(t.screen.dirty_sorted(), vec![0, 1, 2]);
    let c = t.screen.cell(2, 1);
    assert_eq!(c.data, " ");
    assert!(!c.reverse && !c.bold);
}

#[test]
fn paging_by_a_zero_ratio_moves_nothing() {
    let mut t = Session { screen: Screen::with_history(5, 2, 10, 0, 1), stream: Stream::new_bytes() };
    t.feed_str("a\r\nb\r\nc");
    assert_eq!(t.screen.history_state(), Some((10, 10, 1, 0)));
    let before = t.screen.display();
    t.screen.prev_page();
    assert_eq!(t.screen.display(), before);
    assert_eq!(t.screen.history_state(), Some((10, 10, 1, 0)));
    t.screen.next_page();
    assert_eq!(t.screen.display(), before);
    assert_eq!(t.screen.history_state(), Some((10, 10, 1, 0)));
}

#[test]
fn a_new_page_ratio_sets_the_rows_a_page_moves() {
    let mut t = Session { screen: Screen::with_history(5, 2, 10, 0, 1), stream: Stream::new_bytes() };
    t.feed_str("a\r\nb\r\nc\r\nd\r\ne");
    assert_eq!(t.screen.history_state(), Some((10, 10, 3, 0)));
    t.screen.set_page_ratio(1, 2);
    t.screen.prev_page();
    assert_eq!(t.screen.display(), vec!["c    ".to_string(), "d    ".to_string()]);
    assert_eq!(t.screen.history_state(), Some((9, 10, 2, 1)));
    t.screen.next_page();
    assert_eq!(t.screen.display(), vec!["d    ".to_string(), "e    ".to_string()]);
    assert_eq!(t.screen.history_state(), Some((10, 10, 3, 0)));
}

#[test]
fn without_auto_wrap_drawing_overwrites_the_last_column() {
    let mut s = Screen::new(5, 1);
    s.reset_mode(&[7], true);
    s.draw("abcdefg");
    assert_eq!(s.display(), vec!["abcdg".to_string()]);
    assert_eq!(s.cursor.x, 5);
}
