use stryke_terminal::streams::{
    basic_name, csi_name, escape_name, is_allowed_in_csi, is_special, sharp_name, Event, Op,
    Stream,
};

fn describe(events: &[Event]) -> Vec<String> {
    events
        .iter()
        .map(|e| match e {
            Event::Draw(s) => format!("draw {:?}", s),
            Event::Dispatch(op, args, private) => {
                format!("{} {:?}{}", op.name(), args, if *private { " private" } else { "" })
            }
            Event::DefineCharset(code, mode) => format!("define_charset {} {}", code, mode),
            Event::SetIconName(s) => format!("set_icon_name {:?}", s),
            Event::SetTitle(s) => format!("set_title {:?}", s),
        })
        .collect()
}

fn text_events(data: &str) -> Vec<String> {
    let mut s = Stream::new();
    describe(&s.feed_events(data))
}

fn byte_events(data: &[u8]) -> Vec<String> {
    let mut s = Stream::new_bytes();
    describe(&s.feed_bytes_events(data))
}

#[test]
fn disassembles_cursor_position_then_text() {
    assert_eq!(
        byte_events(b"\x1b[3;4Hfoo"),
        vec!["cursor_position [3, 4]".to_string(), "draw \"foo\"".to_string()]
    );
}

#[test]
fn plain_text_is_drawn_in_one_piece() {
    assert_eq!(text_events("hello world"), vec!["draw \"hello world\"".to_string()]);
}

#[test]
fn control_characters_split_text() {
    assert_eq!(
        text_events("ab\r\ncd"),
        vec![
            "draw \"ab\"".to_string(),
            "carriage_return []".to_string(),
            "linefeed []".to_string(),
            "draw \"cd\"".to_string(),
        ]
    );
}

#[test]
fn csi_parameters_are_capped() {
    assert_eq!(text_events("\x1b[12345A"), vec!["cursor_up [9999]".to_string()]);
}

#[test]
fn csi_parameter_beyond_i64_reads_as_zero() {
    assert_eq!(
        text_events("\x1b[99999999999999999999B"),
        vec!["cursor_down [0]".to_string()]
    );
}

#[test]
fn empty_csi_parameters_read_as_zero() {
    assert_eq!(text_events("\x1b[;5H"), vec!["cursor_position [0, 5]".to_string()]);
}

#[test]
fn private_flag_is_passed_on() {
    assert_eq!(text_events("\x1b[?25l"), vec!["reset_mode [25] private".to_string()]);
}

#[test]
fn control_character_inside_csi_runs_immediately() {
    assert_eq!(
        text_events("\x1b[2\nJ"),
        vec!["linefeed []".to_string(), "erase_in_display [2]".to_string()]
    );
}

#[test]
fn cancel_inside_csi_draws_it() {
    assert_eq!(text_events("\x1b[2\x18x"), vec!["draw \"\\u{18}\"".to_string(), "draw \"x\"".to_string()]);
}

#[test]
fn dollar_sequence_swallows_one_character() {
    assert_eq!(text_events("\x1b[1$pab"), vec!["draw \"ab\"".to_string()]);
}

#[test]
fn unknown_sequences_dispatch_debug() {
    assert_eq!(text_events("\x1bz"), vec!["debug []".to_string()]);
    assert_eq!(text_events("\x1b[5z"), vec!["debug [5]".to_string()]);
    assert_eq!(text_events("\x1b#3"), vec!["debug []".to_string()]);
}

#[test]
fn osc_sets_title_and_icon_name() {
    assert_eq!(text_events("\x1b]2;hello\x07"), vec!["set_title \"hello\"".to_string()]);
    assert_eq!(text_events("\x1b]1;icon\u{9c}"), vec!["set_icon_name \"icon\"".to_string()]);
    assert_eq!(
        text_events("\x1b]0;both\x1b\\"),
        vec!["set_icon_name \"both\"".to_string(), "set_title \"both\"".to_string()]
    );
}

#[test]
fn osc_keeps_an_escape_that_does_not_end_it() {
    assert_eq!(text_events("\x1b]2;a\x1bb\x07"), vec!["set_title \"a\\u{1b}b\"".to_string()]);
}

#[test]
fn shifts_are_ignored_in_utf8_mode() {
    assert_eq!(text_events("\x0e\x0f"), Vec::<String>::new());
}

#[test]
fn utf8_split_across_calls_is_joined() {
    let mut s = Stream::new_bytes();
    let first = describe(&s.feed_bytes_events(&[0xE2, 0x82]));
    let second = describe(&s.feed_bytes_events(&[0xAC, b'!']));
    assert!(first.is_empty());
    assert_eq!(second, vec!["draw \"€!\"".to_string()]);
}

#[test]
fn malformed_utf8_becomes_replacement_characters() {
    assert_eq!(byte_events(&[0xFF, b'a']), vec!["draw \"\u{fffd}a\"".to_string()]);
    assert_eq!(byte_events(&[0xE2, 0x28, 0xA1]), vec!["draw \"\u{fffd}(\u{fffd}\"".to_string()]);
    assert_eq!(byte_events(&[0xED, 0xA0, 0x80]), vec!["draw \"\u{fffd}\u{fffd}\u{fffd}\"".to_string()]);
}

#[test]
fn latin1_mode_decodes_bytes_and_defines_charsets() {
    let mut s = Stream::new_bytes();
    let events = describe(&s.feed_bytes_events(b"\x1b%@"));
    assert!(events.is_empty());
    assert_eq!(
        describe(&s.feed_bytes_events(&[0xE9, 0x1b, b'(', b'0'])),
        vec!["draw \"é\"".to_string(), "define_charset 0 (".to_string()]
    );
    assert_eq!(describe(&s.feed_bytes_events(b"\x0e")), vec!["shift_out []".to_string()]);
}

#[test]
fn charset_selection_is_ignored_for_text_streams() {
    assert_eq!(text_events("\x1b%@\x1b(0x"), vec!["draw \"x\"".to_string()]);
}

#[test]
fn name_maps() {
    assert_eq!(basic_name('\x07'), Some(Op::Bell));
    assert_eq!(basic_name('\x0b'), Some(Op::Linefeed));
    assert_eq!(basic_name('a'), None);
    assert_eq!(escape_name('c'), Op::Reset);
    assert_eq!(escape_name('E'), Op::Linefeed);
    assert_eq!(escape_name('q'), Op::Debug);
    assert_eq!(sharp_name('8'), Op::AlignmentDisplay);
    assert_eq!(csi_name('m'), Op::SelectGraphicRendition);
    assert_eq!(csi_name('\''), Op::CursorToColumn);
    assert_eq!(csi_name('f'), Op::CursorPosition);
    assert_eq!(csi_name('~'), Op::Debug);
    assert_eq!(Op::SelectGraphicRendition.name(), "select_graphic_rendition");
}

#[test]
fn special_characters() {
    assert!(is_special('\x1b'));
    assert!(is_special('\u{9b}'));
    assert!(is_special('\x00'));
    assert!(is_special('\n'));
    assert!(!is_special('a'));
    assert!(!is_special('\x18'));
    assert!(is_allowed_in_csi('\r'));
    assert!(!is_allowed_in_csi('\x0e'));
}

#[test]
fn c1_introducers_start_sequences() {
    assert_eq!(text_events("\u{9b}2J"), vec!["erase_in_display [2]".to_string()]);
    assert_eq!(text_events("\u{9d}2;t\x07"), vec!["set_title \"t\"".to_string()]);
}

#[test]
fn stream_state_after_split_input_matches() {
    let mut whole = Stream::new();
    let all = describe(&whole.feed_events("\x1b[31mred"));
    let mut parts = Stream::new();
    let mut got = describe(&parts.feed_events("\x1b[3"));
    got.extend(describe(&parts.feed_events("1mred")));
    assert_eq!(all, got);
    assert!(whole.taking_plain_text() && parts.taking_plain_text());
}

#[test]
fn splitting_a_text_run_only_splits_the_draw() {
    let mut whole = Stream::new();
    assert_eq!(describe(&whole.feed_events("abc\rdef")), vec![
        "draw \"abc\"".to_string(),
        "carriage_return []".to_string(),
        "draw \"def\"".to_string(),
    ]);
    let mut parts = Stream::new();
    let mut got = describe(&parts.feed_events("ab"));
    got.extend(describe(&parts.feed_events("c\rdef")));
    assert_eq!(got, vec![
        "draw \"ab\"".to_string(),
        "draw \"c\"".to_string(),
        "carriage_return []".to_string(),
        "draw \"def\"".to_string(),
    ]);
}

#[test]
fn default_stream_is_a_text_stream() {
    let mut s = Stream::default();
    assert!(s.taking_plain_text());
    assert_eq!(describe(&s.feed_events("\x1b%@\x1b(0q")), vec!["draw \"q\"".to_string()]);
}

#[test]
fn feeding_utf8_bytes_of_text_matches_feeding_the_text() {
    let text = "h\u{e9}llo\x1b[2J\u{4f60}\x1b]2;t\u{e9}\x07!";
    let mut by_text = Stream::new_bytes();
    let a = describe(&by_text.feed_events(text));
    let mut by_bytes = Stream::new_bytes();
    let b = describe(&by_bytes.feed_bytes_events(text.as_bytes()));
    assert_eq!(a, b);
    assert!(by_bytes.taking_plain_text());
}
