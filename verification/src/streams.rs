//! The escape sequence parser.
//!
//! A [`Stream`] is a state machine stepped one character at a time. Plain
//! text is handed on in runs; control characters, `ESC` sequences, CSI
//! sequences (with their numeric parameters) and OSC strings become
//! [`Event`]s, which a [`Listener`] (such as the screen) carries out.
//!
//! A stream made for bytes also decodes its input: as UTF-8 with U+FFFD in
//! place of malformed bytes, carrying an incomplete trailing sequence over to
//! the next call, or, once `ESC % @` has selected it, as Latin-1.
use crate::control as ctrl;

use crate::decode::{decode_utf8_incremental, latin1_chars, lemma_decode_encoded, spec_decode_utf8, spec_latin1};
use crate::escape as esc;
use crate::textfmt::{push_char, str_chars, string_of_range};
use vstd::prelude::*;

verus! {

/// What a control character or a complete sequence asks the screen to do.
/// `Debug` stands for a sequence this parser does not know.
#[derive(Clone, Copy, Debug, PartialEq, Eq, Structural)]
pub enum Op {
    Bell,
    Backspace,
    Tab,
    Linefeed,
    CarriageReturn,
    ShiftOut,
    ShiftIn,
    Reset,
    Index,
    ReverseIndex,
    SetTabStop,
    SaveCursor,
    RestoreCursor,
    AlignmentDisplay,
    InsertCharacters,
    CursorUp,
    CursorDown,
    CursorForward,
    CursorBack,
    CursorDown1,
    CursorUp1,
    CursorToColumn,
    CursorPosition,
    EraseInDisplay,
    EraseInLine,
    InsertLines,
    DeleteLines,
    DeleteCharacters,
    EraseCharacters,
    ReportDeviceAttributes,
    CursorToLine,
    ClearTabStop,
    SetMode,
    ResetMode,
    SelectGraphicRendition,
    ReportDeviceStatus,
    SetMargins,
    Debug,
}

/// The name of an operation, as the screen method that carries it out.
pub open spec fn op_name(op: Op) -> Seq<char> {
    match op {
        Op::Bell => "bell"@,
        Op::Backspace => "backspace"@,
        Op::Tab => "tab"@,
        Op::Linefeed => "linefeed"@,
        Op::CarriageReturn => "carriage_return"@,
        Op::ShiftOut => "shift_out"@,
        Op::ShiftIn => "shift_in"@,
        Op::Reset => "reset"@,
        Op::Index => "index"@,
        Op::ReverseIndex => "reverse_index"@,
        Op::SetTabStop => "set_tab_stop"@,
        Op::SaveCursor => "save_cursor"@,
        Op::RestoreCursor => "restore_cursor"@,
        Op::AlignmentDisplay => "alignment_display"@,
        Op::InsertCharacters => "insert_characters"@,
        Op::CursorUp => "cursor_up"@,
        Op::CursorDown => "cursor_down"@,
        Op::CursorForward => "cursor_forward"@,
        Op::CursorBack => "cursor_back"@,
        Op::CursorDown1 => "cursor_down1"@,
        Op::CursorUp1 => "cursor_up1"@,
        Op::CursorToColumn => "cursor_to_column"@,
        Op::CursorPosition => "cursor_position"@,
        Op::EraseInDisplay => "erase_in_display"@,
        Op::EraseInLine => "erase_in_line"@,
        Op::InsertLines => "insert_lines"@,
        Op::DeleteLines => "delete_lines"@,
        Op::DeleteCharacters => "delete_characters"@,
        Op::EraseCharacters => "erase_characters"@,
        Op::ReportDeviceAttributes => "report_device_attributes"@,
        Op::CursorToLine => "cursor_to_line"@,
        Op::ClearTabStop => "clear_tab_stop"@,
        Op::SetMode => "set_mode"@,
        Op::ResetMode => "reset_mode"@,
        Op::SelectGraphicRendition => "select_graphic_rendition"@,
        Op::ReportDeviceStatus => "report_device_status"@,
        Op::SetMargins => "set_margins"@,
        Op::Debug => "debug"@,
    }
}

impl Op {
    /// The name of this operation.
    pub fn name(&self) -> (r: &'static str)
        ensures
            r@ == op_name(*self),
    {
        match self {
            Op::Bell => "bell",
            Op::Backspace => "backspace",
            Op::Tab => "tab",
            Op::Linefeed => "linefeed",
            Op::CarriageReturn => "carriage_return",
            Op::ShiftOut => "shift_out",
            Op::ShiftIn => "shift_in",
            Op::Reset => "reset",
            Op::Index => "index",
            Op::ReverseIndex => "reverse_index",
            Op::SetTabStop => "set_tab_stop",
            Op::SaveCursor => "save_cursor",
            Op::RestoreCursor => "restore_cursor",
            Op::AlignmentDisplay => "alignment_display",
            Op::InsertCharacters => "insert_characters",
            Op::CursorUp => "cursor_up",
            Op::CursorDown => "cursor_down",
            Op::CursorForward => "cursor_forward",
            Op::CursorBack => "cursor_back",
            Op::CursorDown1 => "cursor_down1",
            Op::CursorUp1 => "cursor_up1",
            Op::CursorToColumn => "cursor_to_column",
            Op::CursorPosition => "cursor_position",
            Op::EraseInDisplay => "erase_in_display",
            Op::EraseInLine => "erase_in_line",
            Op::InsertLines => "insert_lines",
            Op::DeleteLines => "delete_lines",
            Op::DeleteCharacters => "delete_characters",
            Op::EraseCharacters => "erase_characters",
            Op::ReportDeviceAttributes => "report_device_attributes",
            Op::CursorToLine => "cursor_to_line",
            Op::ClearTabStop => "clear_tab_stop",
            Op::SetMode => "set_mode",
            Op::ResetMode => "reset_mode",
            Op::SelectGraphicRendition => "select_graphic_rendition",
            Op::ReportDeviceStatus => "report_device_status",
            Op::SetMargins => "set_margins",
            Op::Debug => "debug",
        }
    }
}

// ── classification of characters ─────────────────────────────────────────

/// The operation of a control character that takes no parameters.
pub open spec fn spec_basic_name(c: char) -> Option<Op> {
    if c == ctrl::BEL {
        Some(Op::Bell)
    } else if c == ctrl::BS {
        Some(Op::Backspace)
    } else if c == ctrl::HT {
        Some(Op::Tab)
    } else if c == ctrl::LF || c == ctrl::VT || c == ctrl::FF {
        Some(Op::Linefeed)
    } else if c == ctrl::CR {
        Some(Op::CarriageReturn)
    } else if c == ctrl::SO {
        Some(Op::ShiftOut)
    } else if c == ctrl::SI {
        Some(Op::ShiftIn)
    } else {
        None
    }
}

/// The operation of a control character that takes no parameters, if `c`
/// is one.
pub fn basic_name(c: char) -> (r: Option<Op>)
    ensures
        r == spec_basic_name(c),
{
    if c == ctrl::BEL {
        Some(Op::Bell)
    } else if c == ctrl::BS {
        Some(Op::Backspace)
    } else if c == ctrl::HT {
        Some(Op::Tab)
    } else if c == ctrl::LF || c == ctrl::VT || c == ctrl::FF {
        Some(Op::Linefeed)
    } else if c == ctrl::CR {
        Some(Op::CarriageReturn)
    } else if c == ctrl::SO {
        Some(Op::ShiftOut)
    } else if c == ctrl::SI {
        Some(Op::ShiftIn)
    } else {
        None
    }
}

/// The operation of `ESC c` for a final character `c` other than the
/// introducers `[`, `]`, `#`, `%`, `(` and `)`.
pub open spec fn spec_escape_name(c: char) -> Op {
    if c == esc::RIS {
        Op::Reset
    } else if c == esc::IND {
        Op::Index
    } else if c == esc::NEL {
        Op::Linefeed
    } else if c == esc::RI {
        Op::ReverseIndex
    } else if c == esc::HTS {
        Op::SetTabStop
    } else if c == esc::DECSC {
        Op::SaveCursor
    } else if c == esc::DECRC {
        Op::RestoreCursor
    } else {
        Op::Debug
    }
}

/// The operation of `ESC c`.
pub fn escape_name(c: char) -> (r: Op)
    ensures
        r == spec_escape_name(c),
{
    if c == esc::RIS {
        Op::Reset
    } else if c == esc::IND {
        Op::Index
    } else if c == esc::NEL {
        Op::Linefeed
    } else if c == esc::RI {
        Op::ReverseIndex
    } else if c == esc::HTS {
        Op::SetTabStop
    } else if c == esc::DECSC {
        Op::SaveCursor
    } else if c == esc::DECRC {
        Op::RestoreCursor
    } else {
        Op::Debug
    }
}

/// The operation of `ESC # c`.
pub open spec fn spec_sharp_name(c: char) -> Op {
    if c == esc::DECALN {
        Op::AlignmentDisplay
    } else {
        Op::Debug
    }
}

/// The operation of `ESC # c`.
pub fn sharp_name(c: char) -> (r: Op)
    ensures
        r == spec_sharp_name(c),
{
    if c == esc::DECALN {
        Op::AlignmentDisplay
    } else {
        Op::Debug
    }
}

/// The operation of a CSI sequence with final character `c`.
pub open spec fn spec_csi_name(c: char) -> Op {
    if c == esc::ICH {
        Op::InsertCharacters
    } else if c == esc::CUU {
        Op::CursorUp
    } else if c == esc::CUD || c == esc::VPR {
        Op::CursorDown
    } else if c == esc::CUF || c == esc::HPR {
        Op::CursorForward
    } else if c == esc::CUB {
        Op::CursorBack
    } else if c == esc::CNL {
        Op::CursorDown1
    } else if c == esc::CPL {
        Op::CursorUp1
    } else if c == esc::CHA || c == esc::HPA {
        Op::CursorToColumn
    } else if c == esc::CUP || c == esc::HVP {
        Op::CursorPosition
    } else if c == esc::ED {
        Op::EraseInDisplay
    } else if c == esc::EL {
        Op::EraseInLine
    } else if c == esc::IL {
        Op::InsertLines
    } else if c == esc::DL {
        Op::DeleteLines
    } else if c == esc::DCH {
        Op::DeleteCharacters
    } else if c == esc::ECH {
        Op::EraseCharacters
    } else if c == esc::DA {
        Op::ReportDeviceAttributes
    } else if c == esc::VPA {
        Op::CursorToLine
    } else if c == esc::TBC {
        Op::ClearTabStop
    } else if c == esc::SM {
        Op::SetMode
    } else if c == esc::RM {
        Op::ResetMode
    } else if c == esc::SGR {
        Op::SelectGraphicRendition
    } else if c == esc::DSR {
        Op::ReportDeviceStatus
    } else if c == esc::DECSTBM {
        Op::SetMargins
    } else {
        Op::Debug
    }
}

/// The operation of a CSI sequence with final character `c`.
pub fn csi_name(c: char) -> (r: Op)
    ensures
        r == spec_csi_name(c),
{
    if c == esc::ICH {
        Op::InsertCharacters
    } else if c == esc::CUU {
        Op::CursorUp
    } else if c == esc::CUD || c == esc::VPR {
        Op::CursorDown
    } else if c == esc::CUF || c == esc::HPR {
        Op::CursorForward
    } else if c == esc::CUB {
        Op::CursorBack
    } else if c == esc::CNL {
        Op::CursorDown1
    } else if c == esc::CPL {
        Op::CursorUp1
    } else if c == esc::CHA || c == esc::HPA {
        Op::CursorToColumn
    } else if c == esc::CUP || c == esc::HVP {
        Op::CursorPosition
    } else if c == esc::ED {
        Op::EraseInDisplay
    } else if c == esc::EL {
        Op::EraseInLine
    } else if c == esc::IL {
        Op::InsertLines
    } else if c == esc::DL {
        Op::DeleteLines
    } else if c == esc::DCH {
        Op::DeleteCharacters
    } else if c == esc::ECH {
        Op::EraseCharacters
    } else if c == esc::DA {
        Op::ReportDeviceAttributes
    } else if c == esc::VPA {
        Op::CursorToLine
    } else if c == esc::TBC {
        Op::ClearTabStop
    } else if c == esc::SM {
        Op::SetMode
    } else if c == esc::RM {
        Op::ResetMode
    } else if c == esc::SGR {
        Op::SelectGraphicRendition
    } else if c == esc::DSR {
        Op::ReportDeviceStatus
    } else if c == esc::DECSTBM {
        Op::SetMargins
    } else {
        Op::Debug
    }
}

/// Whether `c` ends a run of plain text: `ESC`, the C1 CSI and OSC
/// introducers, `NUL`, `DEL`, and every parameterless control character.
pub open spec fn spec_is_special(c: char) -> bool {
    c == ctrl::ESC || c == ctrl::CSI_C1 || c == ctrl::NUL || c == ctrl::DEL || c == ctrl::OSC_C1
        || spec_basic_name(c) is Some
}

/// Whether `c` ends a run of plain text.
pub fn is_special(c: char) -> (b: bool)
    ensures
        b == spec_is_special(c),
{
    c == ctrl::ESC || c == ctrl::CSI_C1 || c == ctrl::NUL || c == ctrl::DEL || c == ctrl::OSC_C1
        || basic_name(c).is_some()
}

/// The control characters carried out in the middle of a CSI sequence.
pub open spec fn spec_is_allowed_in_csi(c: char) -> bool {
    c == ctrl::BEL || c == ctrl::BS || c == ctrl::HT || c == ctrl::LF || c == ctrl::VT || c
        == ctrl::FF || c == ctrl::CR
}

/// Whether `c` is carried out in the middle of a CSI sequence.
pub fn is_allowed_in_csi(c: char) -> (b: bool)
    ensures
        b == spec_is_allowed_in_csi(c),
{
    c == ctrl::BEL || c == ctrl::BS || c == ctrl::HT || c == ctrl::LF || c == ctrl::VT || c
        == ctrl::FF || c == ctrl::CR
}

// ── events ───────────────────────────────────────────────────────────────

/// The abstract value of an event.
pub enum EventM {
    Draw(Seq<char>),
    Dispatch(Op, Seq<i64>, bool),
    DefineCharset(char, char),
    SetIconName(Seq<char>),
    SetTitle(Seq<char>),
}

/// What the parser asks its listener to do: draw text, carry out an
/// operation with its parameters and private flag, define a character set
/// (code, then `(` for G0 or `)` for G1), or set the icon name or title.
pub enum Event {
    Draw(String),
    Dispatch(Op, Vec<i64>, bool),
    DefineCharset(char, char),
    SetIconName(String),
    SetTitle(String),
}

impl View for Event {
    type V = EventM;

    open spec fn view(&self) -> EventM {
        match self {
            Event::Draw(s) => EventM::Draw(s@),
            Event::Dispatch(op, args, p) => EventM::Dispatch(*op, args@, *p),
            Event::DefineCharset(c, m) => EventM::DefineCharset(*c, *m),
            Event::SetIconName(s) => EventM::SetIconName(s@),
            Event::SetTitle(s) => EventM::SetTitle(s@),
        }
    }
}

/// The abstract values of a sequence of events.
pub open spec fn events_view(v: Seq<Event>) -> Seq<EventM> {
    v.map_values(|e: Event| e@)
}

/// The parameters of every operation lie in `0..=9999`.
pub open spec fn event_ok(e: EventM) -> bool {
    match e {
        EventM::Dispatch(_, args, _) => forall|i: int| 0 <= i < args.len() ==> 0 <= #[trigger] args[i] <= 9999,
        _ => true,
    }
}

// ── the state machine ─────────────────────────────────────────────────────

/// Where the parser stands: in plain text, after `ESC`, after `ESC #`,
/// `ESC %` or `ESC (` / `ESC )`, inside a CSI sequence, after a CSI `$`,
/// waiting for an OSC code, or inside an OSC string.
#[derive(Clone, Copy, Debug, PartialEq, Eq, Structural)]
pub enum State {
    Ground,
    Escape,
    EscapeSharp,
    EscapePercent,
    EscapeCharset,
    Csi,
    CsiDollar,
    OscCode,
    OscString,
}

/// The abstract value of a parser.
#[verifier::ext_equal]
pub struct StreamM {
    pub state: State,
    pub csi_params: Seq<i64>,
    pub csi_current: Seq<char>,
    pub csi_private: bool,
    pub esc_charset_mode: char,
    pub osc_code: char,
    pub osc_param: Seq<char>,
    pub osc_pending_esc: bool,
    pub bytes: bool,
    pub use_utf8: bool,
    pub pending_bytes: Seq<u8>,
}

/// A VT100 escape / CSI / OSC parser. A stream made for bytes decodes its
/// input as UTF-8 (or, once selected, Latin-1) before parsing it.
pub struct Stream {
    state: State,
    csi_params: Vec<i64>,
    csi_current: Vec<char>,
    csi_private: bool,
    esc_charset_mode: char,
    osc_code: char,
    osc_param: Vec<char>,
    osc_pending_esc: bool,
    bytes: bool,
    use_utf8: bool,
    pending_bytes: Vec<u8>,
}

impl View for Stream {
    type V = StreamM;

    closed spec fn view(&self) -> StreamM {
        StreamM {
            state: self.state,
            csi_params: self.csi_params@,
            csi_current: self.csi_current@,
            csi_private: self.csi_private,
            esc_charset_mode: self.esc_charset_mode,
            osc_code: self.osc_code,
            osc_param: self.osc_param@,
            osc_pending_esc: self.osc_pending_esc,
            bytes: self.bytes,
            use_utf8: self.use_utf8,
            pending_bytes: self.pending_bytes@,
        }
    }
}

/// The parser's invariant: the parameters read so far lie in `0..=9999`
/// and the parameter being read is made of decimal digits.
pub open spec fn stream_ok(s: StreamM) -> bool {
    &&& forall|i: int| 0 <= i < s.csi_params.len() ==> 0 <= #[trigger] s.csi_params[i] <= 9999
    &&& forall|i: int| 0 <= i < s.csi_current.len() ==> '0' <= #[trigger] s.csi_current[i] <= '9'
}

/// A parser in plain text with nothing pending.
pub open spec fn fresh_stream(bytes: bool) -> StreamM {
    StreamM {
        state: State::Ground,
        csi_params: Seq::empty(),
        csi_current: Seq::empty(),
        csi_private: false,
        esc_charset_mode: '(',
        osc_code: '\0',
        osc_param: Seq::empty(),
        osc_pending_esc: false,
        bytes,
        use_utf8: true,
        pending_bytes: Seq::empty(),
    }
}

/// The value of a string of decimal digits.
pub open spec fn digits_value(ds: Seq<char>) -> int
    decreases ds.len(),
{
    if ds.len() == 0 {
        0
    } else {
        digits_value(ds.drop_last()) * 10 + (ds.last() as int - '0' as int)
    }
}

/// The value of decimal digits is never negative.
pub proof fn lemma_digits_value_nonneg(ds: Seq<char>)
    requires
        forall|i: int| 0 <= i < ds.len() ==> '0' <= #[trigger] ds[i] <= '9',
    ensures
        digits_value(ds) >= 0,
    decreases ds.len(),
{
    if ds.len() > 0 {
        lemma_digits_value_nonneg(ds.drop_last());
        assert('0' <= ds[ds.len() - 1] <= '9');
    }
}

/// The parameter read from digits lies in `0..=9999`.
pub proof fn lemma_csi_param_range(ds: Seq<char>)
    requires
        forall|i: int| 0 <= i < ds.len() ==> '0' <= #[trigger] ds[i] <= '9',
    ensures
        0 <= csi_param(ds) <= 9999,
{
    lemma_digits_value_nonneg(ds);
}

/// A CSI parameter: the value of its digits capped at 9999; no digits, or a
/// value beyond `i64`, read as 0.
pub open spec fn csi_param(ds: Seq<char>) -> i64 {
    if ds.len() == 0 || digits_value(ds) > i64::MAX {
        0
    } else if digits_value(ds) > 9999 {
        9999
    } else {
        digits_value(ds) as i64
    }
}

/// `s` entering a CSI sequence.
pub open spec fn enter_csi(s: StreamM) -> StreamM {
    StreamM {
        state: State::Csi,
        csi_params: Seq::empty(),
        csi_current: Seq::empty(),
        csi_private: false,
        ..s
    }
}

/// `s` back in plain text.
pub open spec fn to_ground(s: StreamM) -> StreamM {
    StreamM { state: State::Ground, ..s }
}

/// `ESC % c` on `s`: for a byte stream, `@` selects Latin-1 (dropping any
/// pending bytes) and `G` or `8` selects UTF-8; otherwise nothing changes.
pub open spec fn select_other_charset(s: StreamM, c: char) -> StreamM {
    if !s.bytes {
        s
    } else if c == '@' {
        StreamM { use_utf8: false, pending_bytes: Seq::empty(), ..s }
    } else if c == 'G' || c == '8' {
        StreamM { use_utf8: true, ..s }
    } else {
        s
    }
}

/// The events that end an OSC string: code `0` or `1` sets the icon name,
/// code `0` or `2` the title, to the string after its leading separator.
pub open spec fn finish_osc(s: StreamM) -> Seq<EventM> {
    let p = if s.osc_param.len() > 0 {
        s.osc_param.drop_first()
    } else {
        Seq::empty()
    };
    let icon = if s.osc_code == '0' || s.osc_code == '1' {
        seq![EventM::SetIconName(p)]
    } else {
        Seq::empty()
    };
    let title = if s.osc_code == '0' || s.osc_code == '2' {
        seq![EventM::SetTitle(p)]
    } else {
        Seq::empty()
    };
    icon + title
}

/// One character in plain text.
pub open spec fn step_ground(s: StreamM, ch: char) -> (StreamM, Seq<EventM>) {
    if ch == ctrl::ESC {
        (StreamM { state: State::Escape, ..s }, Seq::empty())
    } else if spec_basic_name(ch) is Some {
        if (ch == ctrl::SI || ch == ctrl::SO) && s.use_utf8 {
            (s, Seq::empty())
        } else {
            (s, seq![EventM::Dispatch(spec_basic_name(ch)->Some_0, Seq::empty(), false)])
        }
    } else if ch == ctrl::CSI_C1 {
        (enter_csi(s), Seq::empty())
    } else if ch == ctrl::OSC_C1 {
        (StreamM { state: State::OscCode, ..s }, Seq::empty())
    } else if ch != ctrl::NUL && ch != ctrl::DEL {
        (s, seq![EventM::Draw(seq![ch])])
    } else {
        (s, Seq::empty())
    }
}

/// One character after `ESC`.
pub open spec fn step_escape(s: StreamM, ch: char) -> (StreamM, Seq<EventM>) {
    if ch == '[' {
        (enter_csi(s), Seq::empty())
    } else if ch == ']' {
        (StreamM { state: State::OscCode, ..s }, Seq::empty())
    } else if ch == '#' {
        (StreamM { state: State::EscapeSharp, ..s }, Seq::empty())
    } else if ch == '%' {
        (StreamM { state: State::EscapePercent, ..s }, Seq::empty())
    } else if ch == '(' || ch == ')' {
        (StreamM { state: State::EscapeCharset, esc_charset_mode: ch, ..s }, Seq::empty())
    } else {
        (to_ground(s), seq![EventM::Dispatch(spec_escape_name(ch), Seq::empty(), false)])
    }
}

/// One character inside a CSI sequence.
pub open spec fn step_csi(s: StreamM, ch: char) -> (StreamM, Seq<EventM>) {
    if ch == '?' {
        (StreamM { csi_private: true, ..s }, Seq::empty())
    } else if spec_is_allowed_in_csi(ch) {
        (s, seq![EventM::Dispatch(spec_basic_name(ch)->Some_0, Seq::empty(), false)])
    } else if ch == ctrl::SP || ch == '>' {
        (s, Seq::empty())
    } else if ch == ctrl::CAN || ch == ctrl::SUB {
        (to_ground(s), seq![EventM::Draw(seq![ch])])
    } else if '0' <= ch <= '9' {
        (StreamM { csi_current: s.csi_current.push(ch), ..s }, Seq::empty())
    } else if ch == '$' {
        (StreamM { state: State::CsiDollar, ..s }, Seq::empty())
    } else {
        let params = s.csi_params.push(csi_param(s.csi_current));
        if ch == ';' {
            (StreamM { csi_params: params, csi_current: Seq::empty(), ..s }, Seq::empty())
        } else {
            (
                StreamM { csi_params: Seq::empty(), state: State::Ground, ..s },
                seq![EventM::Dispatch(spec_csi_name(ch), params, s.csi_private)],
            )
        }
    }
}

/// One character inside an OSC string, which ends at `ST`, `BEL` or
/// `ESC \`.
pub open spec fn step_osc(s: StreamM, ch: char) -> (StreamM, Seq<EventM>) {
    if s.osc_pending_esc {
        if ch == '\\' {
            (StreamM { osc_pending_esc: false, state: State::Ground, ..s }, finish_osc(s))
        } else {
            (
                StreamM {
                    osc_pending_esc: false,
                    osc_param: s.osc_param.push(ctrl::ESC).push(ch),
                    ..s
                },
                Seq::empty(),
            )
        }
    } else if ch == ctrl::ESC {
        (StreamM { osc_pending_esc: true, ..s }, Seq::empty())
    } else if ch == ctrl::ST_C1 || ch == ctrl::BEL {
        (to_ground(s), finish_osc(s))
    } else {
        (StreamM { osc_param: s.osc_param.push(ch), ..s }, Seq::empty())
    }
}

/// One character: the parser's next state and the events it produces.
pub open spec fn step(s: StreamM, ch: char) -> (StreamM, Seq<EventM>) {
    match s.state {
        State::Ground => step_ground(s, ch),
        State::Escape => step_escape(s, ch),
        State::EscapeSharp => (to_ground(s), seq![EventM::Dispatch(spec_sharp_name(ch), Seq::empty(), false)]),
        State::EscapePercent => (to_ground(select_other_charset(s, ch)), Seq::empty()),
        State::EscapeCharset => (
            to_ground(s),
            if !s.use_utf8 {
                seq![EventM::DefineCharset(ch, s.esc_charset_mode)]
            } else {
                Seq::empty()
            },
        ),
        State::Csi => step_csi(s, ch),
        State::CsiDollar => (to_ground(s), Seq::empty()),
        State::OscCode => if ch == 'R' || ch == 'P' {
            (to_ground(s), Seq::empty())
        } else {
            (
                StreamM {
                    osc_code: ch,
                    osc_param: Seq::empty(),
                    osc_pending_esc: false,
                    state: State::OscString,
                    ..s
                },
                Seq::empty(),
            )
        },
        State::OscString => step_osc(s, ch),
    }
}

/// How many characters at the start of `cs` are plain text.
pub open spec fn plain_len(cs: Seq<char>) -> nat
    decreases cs.len(),
{
    if cs.len() == 0 || spec_is_special(cs[0]) {
        0
    } else {
        1 + plain_len(cs.drop_first())
    }
}

/// A plain run is no longer than the text, and at least one character long
/// when the text starts with an ordinary character.
pub proof fn lemma_plain_len_bound(cs: Seq<char>)
    ensures
        plain_len(cs) <= cs.len(),
        cs.len() > 0 && !spec_is_special(cs[0]) ==> plain_len(cs) >= 1,
    decreases cs.len(),
{
    if cs.len() > 0 && !spec_is_special(cs[0]) {
        lemma_plain_len_bound(cs.drop_first());
    }
}

/// Feeding `cs`: the parser's final state and the events, in order. In
/// plain text a whole run of ordinary characters is drawn at once.
pub open spec fn feed(s: StreamM, cs: Seq<char>) -> (StreamM, Seq<EventM>)
    decreases cs.len(),
{
    if cs.len() == 0 {
        (s, Seq::empty())
    } else if s.state == State::Ground && !spec_is_special(cs[0]) {
        let n = plain_len(cs) as int;
        proof {
            lemma_plain_len_bound(cs);
        }
        let r = feed(s, cs.skip(n));
        (r.0, seq![EventM::Draw(cs.take(n))] + r.1)
    } else {
        let a = step(s, cs[0]);
        let r = feed(a.0, cs.drop_first());
        (r.0, a.1 + r.1)
    }
}

impl Default for Stream {
    /// A stream for text.
    fn default() -> (s: Stream)
        ensures
            s.wf(),
            s@ == fresh_stream(false),
    {
        Stream::new()
    }
}

impl Stream {
    /// The parser's invariant.
    pub closed spec fn wf(&self) -> bool {
        stream_ok(self@)
    }

    /// A stream for text.
    pub fn new() -> (s: Stream)
        ensures
            s.wf(),
            s@ == fresh_stream(false),
    {
        let s = Stream {
            state: State::Ground,
            csi_params: Vec::new(),
            csi_current: Vec::new(),
            csi_private: false,
            esc_charset_mode: '(',
            osc_code: '\0',
            osc_param: Vec::new(),
            osc_pending_esc: false,
            bytes: false,
            use_utf8: true,
            pending_bytes: Vec::new(),
        };
        assert(s@ =~= fresh_stream(false));
        s
    }

    /// A stream for bytes, decoding UTF-8 to begin with.
    pub fn new_bytes() -> (s: Stream)
        ensures
            s.wf(),
            s@ == fresh_stream(true),
    {
        let mut s = Stream::new();
        s.bytes = true;
        assert(s@ =~= fresh_stream(true));
        s
    }

    /// Whether the parser is in plain text.
    pub fn taking_plain_text(&self) -> (b: bool)
        ensures
            b == (self@.state == State::Ground),
    {
        self.state == State::Ground
    }

    /// Enters a CSI sequence.
    pub fn enter_csi(&mut self)
        requires
            old(self).wf(),
        ensures
            final(self).wf(),
            final(self)@ == enter_csi(old(self)@),
    {
        self.state = State::Csi;
        self.csi_params.clear();
        self.csi_current.clear();
        self.csi_private = false;
        assert(self@ =~= enter_csi(old(self)@));
    }

    /// `ESC % c`: for a byte stream, selects Latin-1 or UTF-8.
    pub fn select_other_charset(&mut self, code: char)
        requires
            old(self).wf(),
        ensures
            final(self).wf(),
            final(self)@ == select_other_charset(old(self)@, code),
    {
        if !self.bytes {
            return ;
        }
        if code == '@' {
            self.use_utf8 = false;
            self.pending_bytes.clear();
        } else if code == 'G' || code == '8' {
            self.use_utf8 = true;
        }
        assert(self@ =~= select_other_charset(old(self)@, code));
    }

    /// Ends an OSC string, producing its events.
    pub fn finish_osc(&self, out: &mut Vec<Event>)
        ensures
            events_view(final(out)@) == events_view(old(out)@) + finish_osc(self@),
    {
        let n = self.osc_param.len();
        let p = if n > 0 {
            string_of_range(&self.osc_param, 1, n)
        } else {
            String::new()
        };
        proof {
            if n > 0 {
                assert(self.osc_param@.subrange(1, n as int) =~= self.osc_param@.drop_first());
            }
        }
        let ghost p_view = p@;
        if self.osc_code == '0' || self.osc_code == '1' {
            let q = p.clone();
            out.push(Event::SetIconName(q));
        }
        let ghost mid = out@;
        if self.osc_code == '0' || self.osc_code == '2' {
            out.push(Event::SetTitle(p));
        }
        proof {
            let icon = if self.osc_code == '0' || self.osc_code == '1' {
                seq![EventM::SetIconName(p_view)]
            } else {
                Seq::empty()
            };
            assert(events_view(mid) =~= events_view(old(out)@) + icon);
            assert(events_view(out@) =~= events_view(old(out)@) + finish_osc(self@));
        }
    }
}

/// The parameter the digits `ds` stand for.
fn csi_param_exec(ds: &Vec<char>) -> (r: i64)
    requires
        forall|i: int| 0 <= i < ds@.len() ==> '0' <= #[trigger] ds@[i] <= '9',
    ensures
        r == csi_param(ds@),
{
    let n = ds.len();
    if n == 0 {
        return 0;
    }
    let mut v: i64 = 0;
    let mut over = false;
    let mut i: usize = 0;
    while i < n
        invariant
            n == ds@.len(),
            i <= n,
            forall|j: int| 0 <= j < ds@.len() ==> '0' <= #[trigger] ds@[j] <= '9',
            !over ==> v == digits_value(ds@.subrange(0, i as int)) && 0 <= v,
            over ==> digits_value(ds@.subrange(0, i as int)) > i64::MAX,
        decreases n - i,
    {
        let d = (ds[i] as u32 - '0' as u32) as i64;
        assert(ds@.subrange(0, i + 1).drop_last() =~= ds@.subrange(0, i as int));
        if !over {
            if v > (i64::MAX - d) / 10 {
                over = true;
                assert(v * 10 + d > i64::MAX) by (nonlinear_arith)
                    requires
                        v > (i64::MAX - d) / 10,
                        0 <= d <= 9,
                ;
            } else {
                assert(v * 10 + d <= i64::MAX) by (nonlinear_arith)
                    requires
                        v <= (i64::MAX - d) / 10,
                        0 <= d <= 9,
                        0 <= v,
                ;
                v = v * 10 + d;
            }
        } else {
            assert(digits_value(ds@.subrange(0, i + 1)) >= digits_value(ds@.subrange(0, i as int))) by (nonlinear_arith)
                requires
                    digits_value(ds@.subrange(0, i + 1)) == digits_value(ds@.subrange(0, i as int)) * 10 + d,
                    digits_value(ds@.subrange(0, i as int)) > 0,
                    0 <= d,
            ;
        }
        i = i + 1;
    }
    assert(ds@.subrange(0, n as int) =~= ds@);
    if over {
        0
    } else if v > 9999 {
        9999
    } else {
        v
    }
}


/// The one-character text `ch`.
fn char_string(ch: char) -> (r: String)
    ensures
        r@ == seq![ch],
{
    let mut r = String::new();
    push_char(&mut r, ch);
    assert(r@ =~= seq![ch]);
    r
}

/// Appends an event.
fn emit(out: &mut Vec<Event>, e: Event)
    ensures
        events_view(final(out)@) == events_view(old(out)@).push(e@),
{
    let ghost o = out@;
    out.push(e);
    assert(events_view(out@) =~= events_view(o).push(e@));
}

impl Stream {
    /// One character in plain text.
    pub fn advance_ground(&mut self, ch: char, out: &mut Vec<Event>)
        requires
            old(self).wf(),
        ensures
            final(self).wf(),
            final(self)@ == step_ground(old(self)@, ch).0,
            events_view(final(out)@) == events_view(old(out)@) + step_ground(old(self)@, ch).1,
    {
        let ghost o = events_view(out@);
        if ch == ctrl::ESC {
            self.state = State::Escape;
        } else if let Some(op) = basic_name(ch) {
            if (ch == ctrl::SI || ch == ctrl::SO) && self.use_utf8 {
            } else {
                emit(out, Event::Dispatch(op, Vec::new(), false));
            }
        } else if ch == ctrl::CSI_C1 {
            self.enter_csi();
        } else if ch == ctrl::OSC_C1 {
            self.state = State::OscCode;
        } else if ch != ctrl::NUL && ch != ctrl::DEL {
            emit(out, Event::Draw(char_string(ch)));
        }
        assert(self@ =~= step_ground(old(self)@, ch).0);
        assert(events_view(out@) =~= o + step_ground(old(self)@, ch).1);
    }

    /// One character after `ESC`.
    pub fn advance_escape(&mut self, ch: char, out: &mut Vec<Event>)
        requires
            old(self).wf(),
        ensures
            final(self).wf(),
            final(self)@ == step_escape(old(self)@, ch).0,
            events_view(final(out)@) == events_view(old(out)@) + step_escape(old(self)@, ch).1,
    {
        let ghost o = events_view(out@);
        if ch == '[' {
            self.enter_csi();
        } else if ch == ']' {
            self.state = State::OscCode;
        } else if ch == '#' {
            self.state = State::EscapeSharp;
        } else if ch == '%' {
            self.state = State::EscapePercent;
        } else if ch == '(' || ch == ')' {
            self.esc_charset_mode = ch;
            self.state = State::EscapeCharset;
        } else {
            emit(out, Event::Dispatch(escape_name(ch), Vec::new(), false));
            self.state = State::Ground;
        }
        assert(self@ =~= step_escape(old(self)@, ch).0);
        assert(events_view(out@) =~= o + step_escape(old(self)@, ch).1);
    }

    /// One character inside a CSI sequence.
    pub fn advance_csi(&mut self, ch: char, out: &mut Vec<Event>)
        requires
            old(self).wf(),
        ensures
            final(self).wf(),
            final(self)@ == step_csi(old(self)@, ch).0,
            events_view(final(out)@) == events_view(old(out)@) + step_csi(old(self)@, ch).1,
    {
        let ghost o = events_view(out@);
        if ch == '?' {
            self.csi_private = true;
        } else if is_allowed_in_csi(ch) {
            if let Some(op) = basic_name(ch) {
                emit(out, Event::Dispatch(op, Vec::new(), false));
            }
        } else if ch == ctrl::SP || ch == '>' {
        } else if ch == ctrl::CAN || ch == ctrl::SUB {
            emit(out, Event::Draw(char_string(ch)));
            self.state = State::Ground;
        } else if '0' <= ch && ch <= '9' {
            self.csi_current.push(ch);
        } else if ch == '$' {
            self.state = State::CsiDollar;
        } else {
            proof {
                assert(stream_ok(self@));
                assert forall|i: int| 0 <= i < self.csi_current@.len() implies '0' <= #[trigger] self.csi_current@[i]
                    <= '9' by {
                    assert(self@.csi_current[i] == self.csi_current@[i]);
                }
                lemma_csi_param_range(self.csi_current@);
            }
            let n = csi_param_exec(&self.csi_current);
            self.csi_params.push(n);
            if ch == ';' {
                self.csi_current.clear();
            } else {
                let mut params = Vec::new();
                std::mem::swap(&mut params, &mut self.csi_params);
                emit(out, Event::Dispatch(csi_name(ch), params, self.csi_private));
                self.state = State::Ground;
            }
        }
        assert(self@ =~= step_csi(old(self)@, ch).0);
        assert(events_view(out@) =~= o + step_csi(old(self)@, ch).1);
    }

    /// One character inside an OSC string.
    pub fn advance_osc_string(&mut self, ch: char, out: &mut Vec<Event>)
        requires
            old(self).wf(),
        ensures
            final(self).wf(),
            final(self)@ == step_osc(old(self)@, ch).0,
            events_view(final(out)@) == events_view(old(out)@) + step_osc(old(self)@, ch).1,
    {
        let ghost o = events_view(out@);
        if self.osc_pending_esc {
            self.osc_pending_esc = false;
            if ch == '\\' {
                self.finish_osc(out);
                self.state = State::Ground;
            } else {
                self.osc_param.push(ctrl::ESC);
                self.osc_param.push(ch);
            }
        } else if ch == ctrl::ESC {
            self.osc_pending_esc = true;
        } else if ch == ctrl::ST_C1 || ch == ctrl::BEL {
            self.finish_osc(out);
            self.state = State::Ground;
        } else {
            self.osc_param.push(ch);
        }
        assert(self@ =~= step_osc(old(self)@, ch).0);
        assert(events_view(out@) =~= o + step_osc(old(self)@, ch).1);
    }

    /// Steps the parser by one character, appending the events it produces.
    pub fn advance(&mut self, ch: char, out: &mut Vec<Event>)
        requires
            old(self).wf(),
        ensures
            final(self).wf(),
            final(self)@ == step(old(self)@, ch).0,
            events_view(final(out)@) == events_view(old(out)@) + step(old(self)@, ch).1,
    {
        let ghost o = events_view(out@);
        match self.state {
            State::Ground => self.advance_ground(ch, out),
            State::Escape => self.advance_escape(ch, out),
            State::EscapeSharp => {
                emit(out, Event::Dispatch(sharp_name(ch), Vec::new(), false));
                self.state = State::Ground;
            },
            State::EscapePercent => {
                self.select_other_charset(ch);
                self.state = State::Ground;
            },
            State::EscapeCharset => {
                let mode = self.esc_charset_mode;
                if !self.use_utf8 {
                    emit(out, Event::DefineCharset(ch, mode));
                }
                self.state = State::Ground;
            },
            State::Csi => self.advance_csi(ch, out),
            State::CsiDollar => {
                self.state = State::Ground;
            },
            State::OscCode => {
                if ch == 'R' || ch == 'P' {
                    self.state = State::Ground;
                } else {
                    self.osc_code = ch;
                    self.osc_param.clear();
                    self.osc_pending_esc = false;
                    self.state = State::OscString;
                }
            },
            State::OscString => self.advance_osc_string(ch, out),
        }
        assert(self@ =~= step(old(self)@, ch).0);
        assert(events_view(out@) =~= o + step(old(self)@, ch).1);
    }
}


/// The plain run at the start of `cs` is exactly its first `k` characters
/// when those are ordinary and the next one (if any) is special.
proof fn lemma_plain_len_exact(cs: Seq<char>, k: int)
    requires
        0 <= k <= cs.len(),
        forall|j: int| 0 <= j < k ==> !spec_is_special(#[trigger] cs[j]),
        k == cs.len() || spec_is_special(cs[k]),
    ensures
        plain_len(cs) == k,
    decreases k,
{
    if k > 0 {
        let t = cs.drop_first();
        assert forall|j: int| 0 <= j < k - 1 implies !spec_is_special(#[trigger] t[j]) by {
            assert(t[j] == cs[j + 1]);
        }
        if k < cs.len() {
            assert(t[k - 1] == cs[k]);
        }
        lemma_plain_len_exact(t, k - 1);
    }
}

impl Stream {
    /// Feeds text, returning the events in order: in plain text a run of
    /// ordinary characters is drawn at once, every other character steps
    /// the parser.
    pub fn feed_events(&mut self, data: &str) -> (r: Vec<Event>)
        requires
            old(self).wf(),
        ensures
            final(self).wf(),
            final(self)@ == feed(old(self)@, data@).0,
            events_view(r@) == feed(old(self)@, data@).1,
            events_ok(events_view(r@)),
    {
        proof {
            lemma_feed_run(self@, data@);
        }
        let chars = str_chars(data);
        let len = chars.len();
        let mut out: Vec<Event> = Vec::new();
        let mut offset: usize = 0;
        let ghost s0 = self@;
        let ghost cs = data@;
        assert(cs.skip(0) =~= cs);
        while offset < len
            invariant
                self.wf(),
                chars@ == cs,
                len == cs.len(),
                offset <= len,
                feed(s0, cs) == (feed(self@, cs.skip(offset as int)).0, events_view(out@) + feed(
                    self@,
                    cs.skip(offset as int),
                ).1),
            decreases len - offset,
        {
            let ghost rest = cs.skip(offset as int);
            let ghost st = self@;
            assert(rest[0] == cs[offset as int]);
            if self.taking_plain_text() {
                let start = offset;
                while offset < len && !is_special(chars[offset])
                    invariant
                        chars@ == cs,
                        len == cs.len(),
                        start <= offset <= len,
                        forall|j: int| start <= j < offset ==> !spec_is_special(#[trigger] cs[j]),
                    decreases len - offset,
                {
                    offset = offset + 1;
                }
                if offset > start {
                    let chunk = string_of_range(&chars, start, offset);
                    proof {
                        let k = (offset - start) as int;
                        assert forall|j: int| 0 <= j < k implies !spec_is_special(#[trigger] rest[j]) by {
                            assert(rest[j] == cs[start + j]);
                        }
                        if offset < len {
                            assert(rest[k] == cs[offset as int]);
                        }
                        lemma_plain_len_exact(rest, k);
                        assert(rest.take(k) =~= cs.subrange(start as int, offset as int));
                        assert(rest.skip(k) =~= cs.skip(offset as int));
                    }
                    let ghost o = events_view(out@);
                    emit(&mut out, Event::Draw(chunk));
                    proof {
                        let k = (offset - start) as int;
                        let r = feed(st, rest.skip(k));
                        assert(feed(st, rest) == (r.0, seq![EventM::Draw(rest.take(k))] + r.1));
                        assert(o + (seq![EventM::Draw(rest.take(k))] + r.1) =~= events_view(out@) + r.1);
                    }
                } else {
                    proof {
                        assert(spec_is_special(cs[offset as int]));
                    }
                    let ghost o = events_view(out@);
                    self.advance(chars[offset], &mut out);
                    offset = offset + 1;
                    proof {
                        assert(rest.drop_first() =~= cs.skip(offset as int));
                        let a = step(st, rest[0]);
                        let r = feed(a.0, rest.drop_first());
                        assert(o + (a.1 + r.1) =~= events_view(out@) + r.1);
                    }
                }
            } else {
                let ghost o = events_view(out@);
                self.advance(chars[offset], &mut out);
                offset = offset + 1;
                proof {
                    assert(rest.drop_first() =~= cs.skip(offset as int));
                    let a = step(st, rest[0]);
                    let r = feed(a.0, rest.drop_first());
                    assert(o + (a.1 + r.1) =~= events_view(out@) + r.1);
                }
            }
        }
        proof {
            assert(cs.skip(len as int).len() == 0);
            assert(events_view(out@) + Seq::empty() =~= events_view(out@));
        }
        out
    }
}


/// Whether every operation among `es` has its parameters in `0..=9999`.
pub open spec fn events_ok(es: Seq<EventM>) -> bool {
    forall|i: int| 0 <= i < es.len() ==> event_ok(#[trigger] es[i])
}

/// One step keeps the parser's invariant, and the operations it produces
/// have their parameters in `0..=9999`.
pub proof fn lemma_step_ok(s: StreamM, ch: char)
    requires
        stream_ok(s),
    ensures
        stream_ok(step(s, ch).0),
        events_ok(step(s, ch).1),
{
    if s.state == State::Csi && !(ch == '?') && !spec_is_allowed_in_csi(ch) && !(ch == ctrl::SP
        || ch == '>') && !(ch == ctrl::CAN || ch == ctrl::SUB) && !('0' <= ch <= '9') && ch != '$' {
        lemma_csi_param_range(s.csi_current);
        let params = s.csi_params.push(csi_param(s.csi_current));
        assert(forall|i: int| 0 <= i < params.len() ==> 0 <= #[trigger] params[i] <= 9999);
    }
    if s.state == State::OscString {
        let p = if s.osc_param.len() > 0 {
            s.osc_param.drop_first()
        } else {
            Seq::empty()
        };
        assert(events_ok(finish_osc(s)));
    }
}

/// The parser's state after the input, stepping one character at a time.
pub open spec fn run(s: StreamM, cs: Seq<char>) -> StreamM
    decreases cs.len(),
{
    if cs.len() == 0 {
        s
    } else {
        run(step(s, cs[0]).0, cs.drop_first())
    }
}

proof fn lemma_run_plain(s: StreamM, cs: Seq<char>, n: int)
    requires
        s.state == State::Ground,
        0 <= n <= cs.len(),
        forall|j: int| 0 <= j < n ==> !spec_is_special(#[trigger] cs[j]),
    ensures
        run(s, cs) == run(s, cs.skip(n)),
    decreases n,
{
    if n > 0 {
        assert(!spec_is_special(cs[0]));
        assert(step(s, cs[0]).0 == s);
        let t = cs.drop_first();
        assert forall|j: int| 0 <= j < n - 1 implies !spec_is_special(#[trigger] t[j]) by {
            assert(t[j] == cs[j + 1]);
        }
        lemma_run_plain(s, t, n - 1);
        assert(t.skip(n - 1) =~= cs.skip(n));
    } else {
        assert(cs.skip(0) =~= cs);
    }
}

proof fn lemma_plain_prefix(cs: Seq<char>)
    ensures
        forall|j: int| 0 <= j < plain_len(cs) ==> !spec_is_special(#[trigger] cs[j]),
    decreases cs.len(),
{
    if cs.len() > 0 && !spec_is_special(cs[0]) {
        let t = cs.drop_first();
        lemma_plain_prefix(t);
        lemma_plain_len_bound(cs);
        assert forall|j: int| 0 <= j < plain_len(cs) implies !spec_is_special(#[trigger] cs[j]) by {
            if j > 0 {
                assert(cs[j] == t[j - 1]);
            }
        }
    }
}

/// Feeding ends in the state that stepping one character at a time reaches,
/// and keeps the parser's invariant; the operations fed have their
/// parameters in `0..=9999`.
pub proof fn lemma_feed_run(s: StreamM, cs: Seq<char>)
    requires
        stream_ok(s),
    ensures
        feed(s, cs).0 == run(s, cs),
        stream_ok(feed(s, cs).0),
        events_ok(feed(s, cs).1),
    decreases cs.len(),
{
    if cs.len() == 0 {
    } else if s.state == State::Ground && !spec_is_special(cs[0]) {
        let n = plain_len(cs) as int;
        lemma_plain_len_bound(cs);
        lemma_plain_prefix(cs);
        lemma_run_plain(s, cs, n);
        lemma_feed_run(s, cs.skip(n));
        let r = feed(s, cs.skip(n));
        assert(events_ok(seq![EventM::Draw(cs.take(n))] + r.1)) by {
            assert forall|i: int| 0 <= i < 1 + r.1.len() implies event_ok(
                #[trigger] (seq![EventM::Draw(cs.take(n))] + r.1)[i],
            ) by {
                if i > 0 {
                    assert((seq![EventM::Draw(cs.take(n))] + r.1)[i] == r.1[i - 1]);
                }
            }
        }
    } else {
        lemma_step_ok(s, cs[0]);
        let a = step(s, cs[0]);
        lemma_feed_run(a.0, cs.drop_first());
        let r = feed(a.0, cs.drop_first());
        assert(events_ok(a.1 + r.1)) by {
            assert forall|i: int| 0 <= i < a.1.len() + r.1.len() implies event_ok(#[trigger] (a.1 + r.1)[i]) by {
                if i >= a.1.len() {
                    assert((a.1 + r.1)[i] == r.1[i - a.1.len()]);
                } else {
                    assert((a.1 + r.1)[i] == a.1[i]);
                }
            }
        }
    }
}

proof fn lemma_run_append(s: StreamM, a: Seq<char>, b: Seq<char>)
    ensures
        run(s, a + b) == run(run(s, a), b),
    decreases a.len(),
{
    if a.len() == 0 {
        assert(a + b =~= b);
    } else {
        assert((a + b)[0] == a[0]);
        assert((a + b).drop_first() =~= a.drop_first() + b);
        lemma_run_append(step(s, a[0]).0, a.drop_first(), b);
    }
}

/// Feeding text in two pieces leaves the parser in the same state as
/// feeding it at once: a sequence cut between two calls is completed by
/// the second.
pub proof fn lemma_feed_split(s: StreamM, a: Seq<char>, b: Seq<char>)
    requires
        stream_ok(s),
    ensures
        feed(s, a + b).0 == feed(feed(s, a).0, b).0,
{
    lemma_feed_run(s, a + b);
    lemma_feed_run(s, a);
    lemma_feed_run(feed(s, a).0, b);
    lemma_run_append(s, a, b);
}

/// The text a byte stream's input decodes to, and the parser with the
/// bytes held back for the next input.
pub open spec fn decode_input(s: StreamM, data: Seq<u8>) -> (Seq<char>, StreamM) {
    if s.use_utf8 {
        let d = spec_decode_utf8(s.pending_bytes + data);
        (d.0, StreamM { pending_bytes: d.1, ..s })
    } else {
        (spec_latin1(data), s)
    }
}

/// Feeding bytes: they are decoded, then the text is fed.
pub open spec fn feed_bytes_model(s: StreamM, data: Seq<u8>) -> (StreamM, Seq<EventM>) {
    let d = decode_input(s, data);
    feed(d.1, d.0)
}

/// Something that carries out what a stream parses, such as a screen. Its
/// state is seen through `model`, and `on_event` says what each event does
/// to it.
pub trait Listener {
    /// The abstract state of the listener.
    type Model;

    /// The listener's invariant, kept across events.
    spec fn ready(&self) -> bool;

    /// The listener's abstract state.
    spec fn model(&self) -> Self::Model;

    /// What one event does to the abstract state.
    spec fn on_event(m: Self::Model, e: EventM) -> Self::Model;

    /// Draws text at the cursor.
    fn draw(&mut self, data: &str)
        requires
            old(self).ready(),
        ensures
            final(self).ready(),
            final(self).model() == Self::on_event(old(self).model(), EventM::Draw(data@)),
    ;

    /// Carries out an operation with its parameters and private flag.
    fn dispatch(&mut self, op: Op, args: &[i64], private: bool)
        requires
            old(self).ready(),
            forall|i: int| 0 <= i < args@.len() ==> 0 <= #[trigger] args@[i] <= 9999,
        ensures
            final(self).ready(),
            final(self).model() == Self::on_event(old(self).model(), EventM::Dispatch(op, args@, private)),
    ;

    /// Defines character set G0 (`mode` `(`) or G1 (`mode` `)`).
    fn define_charset(&mut self, code: char, mode: char)
        requires
            old(self).ready(),
        ensures
            final(self).ready(),
            final(self).model() == Self::on_event(old(self).model(), EventM::DefineCharset(code, mode)),
    ;

    /// Sets the icon name.
    fn set_icon_name(&mut self, name: &str)
        requires
            old(self).ready(),
        ensures
            final(self).ready(),
            final(self).model() == Self::on_event(old(self).model(), EventM::SetIconName(name@)),
    ;

    /// Sets the window title.
    fn set_title(&mut self, title: &str)
        requires
            old(self).ready(),
        ensures
            final(self).ready(),
            final(self).model() == Self::on_event(old(self).model(), EventM::SetTitle(title@)),
    ;
}

/// What a sequence of events does to a listener's abstract state, in order.
pub open spec fn on_events<L: Listener>(m: L::Model, es: Seq<EventM>) -> L::Model
    decreases es.len(),
{
    if es.len() == 0 {
        m
    } else {
        L::on_event(on_events::<L>(m, es.drop_last()), es.last())
    }
}

/// The parameters of an operation that passes `event_ok` lie in `0..=9999`.
pub proof fn lemma_event_args(op: Op, a: Seq<i64>, p: bool, j: int)
    requires
        event_ok(EventM::Dispatch(op, a, p)),
        0 <= j < a.len(),
    ensures
        0 <= a[j] <= 9999,
{
    let e = EventM::Dispatch(op, a, p);
    assert(e matches EventM::Dispatch(_, x, _) && x == a);
    assert(event_ok(e));
    assert(0 <= a[j]);
}

/// Hands `events` to `listener`, in order.
pub fn deliver<L: Listener>(listener: &mut L, events: &Vec<Event>)
    requires
        old(listener).ready(),
        events_ok(events_view(events@)),
    ensures
        final(listener).ready(),
        final(listener).model() == on_events::<L>(old(listener).model(), events_view(events@)),
{
    let ghost m0 = listener.model();
    let ghost es = events_view(events@);
    let mut i: usize = 0;
    assert(es.take(0) =~= Seq::<EventM>::empty());
    while i < events.len()
        invariant
            listener.ready(),
            i <= events@.len(),
            es == events_view(events@),
            events_ok(es),
            listener.model() == on_events::<L>(m0, es.take(i as int)),
        decreases events@.len() - i,
    {
        let e = &events[i];
        assert(events_view(events@)[i as int] == e@);
        assert(event_ok(e@));
        match e {
            Event::Draw(t) => listener.draw(t.as_str()),
            Event::Dispatch(op, args, private) => {
                assert(e@ == EventM::Dispatch(*op, args@, *private));
                assert forall|j: int| 0 <= j < args@.len() implies 0 <= #[trigger] args@[j] <= 9999 by {
                    lemma_event_args(*op, args@, *private, j);
                }
                listener.dispatch(*op, args.as_slice(), *private);
            },
            Event::DefineCharset(code, mode) => listener.define_charset(*code, *mode),
            Event::SetIconName(t) => listener.set_icon_name(t.as_str()),
            Event::SetTitle(t) => listener.set_title(t.as_str()),
        }
        assert(es.take(i + 1).drop_last() =~= es.take(i as int));
        i = i + 1;
    }
    assert(es.take(events@.len() as int) =~= es);
}

impl Stream {
    /// Feeds bytes, returning the events: they are decoded as UTF-8 (with
    /// the bytes held back from the last call in front) or as Latin-1,
    /// then the text is fed.
    pub fn feed_bytes_events(&mut self, data: &[u8]) -> (r: Vec<Event>)
        requires
            old(self).wf(),
        ensures
            final(self).wf(),
            final(self)@ == feed_bytes_model(old(self)@, data@).0,
            events_view(r@) == feed_bytes_model(old(self)@, data@).1,
            events_ok(events_view(r@)),
    {
        let text = if self.use_utf8 {
            decode_utf8_incremental(&mut self.pending_bytes, data)
        } else {
            latin1_chars(data)
        };
        assert(self@ == decode_input(old(self)@, data@).1);
        proof {
            lemma_feed_run(self@, text@);
        }
        self.feed_events(text.as_str())
    }

    /// Feeds text to `listener`. Plain-text runs are drawn at once; special
    /// characters step the parser.
    pub fn feed_str<L: Listener>(&mut self, listener: &mut L, data: &str)
        requires
            old(self).wf(),
            old(listener).ready(),
        ensures
            final(self).wf(),
            final(listener).ready(),
            final(self)@ == feed(old(self)@, data@).0,
            final(listener).model() == on_events::<L>(old(listener).model(), feed(old(self)@, data@).1),
    {
        proof {
            lemma_feed_run(self@, data@);
        }
        let events = self.feed_events(data);
        deliver(listener, &events);
    }

    /// Feeds bytes to `listener`, decoding them first.
    pub fn feed_bytes<L: Listener>(&mut self, listener: &mut L, data: &[u8])
        requires
            old(self).wf(),
            old(listener).ready(),
        ensures
            final(self).wf(),
            final(listener).ready(),
            final(self)@ == feed_bytes_model(old(self)@, data@).0,
            final(listener).model() == on_events::<L>(
                old(listener).model(),
                feed_bytes_model(old(self)@, data@).1,
            ),
    {
        let events = self.feed_bytes_events(data);
        deliver(listener, &events);
    }
}


/// In plain text, a run of ordinary characters reaches the listener as a
/// single draw and leaves the parser as it was.
pub proof fn lemma_plain_text_one_draw(s: StreamM, cs: Seq<char>)
    requires
        s.state == State::Ground,
        cs.len() > 0,
        forall|i: int| 0 <= i < cs.len() ==> !spec_is_special(#[trigger] cs[i]),
    ensures
        feed(s, cs) == (s, seq![EventM::Draw(cs)]),
{
    lemma_plain_len_exact(cs, cs.len() as int);
    assert(!spec_is_special(cs[0]));
    let rest = cs.skip(cs.len() as int);
    assert(rest.len() == 0);
    assert(feed(s, rest) == (s, Seq::<EventM>::empty()));
    assert(cs.take(cs.len() as int) =~= cs);
    assert(seq![EventM::Draw(cs)] + Seq::<EventM>::empty() =~= seq![EventM::Draw(cs)]);
    assert(feed(s, cs) == (feed(s, rest).0, seq![EventM::Draw(cs.take(cs.len() as int))] + feed(s, rest).1));
}


/// An event with its drawn text split into one draw per character.
pub open spec fn atom_of(e: EventM) -> Seq<EventM> {
    match e {
        EventM::Draw(t) => Seq::new(t.len(), |i: int| EventM::Draw(seq![t[i]])),
        _ => seq![e],
    }
}

/// Events with every draw split into one draw per character.
pub open spec fn atoms(es: Seq<EventM>) -> Seq<EventM>
    decreases es.len(),
{
    if es.len() == 0 {
        Seq::empty()
    } else {
        atoms(es.drop_last()) + atom_of(es.last())
    }
}

/// The events of stepping one character at a time.
pub open spec fn run_events(s: StreamM, cs: Seq<char>) -> Seq<EventM>
    decreases cs.len(),
{
    if cs.len() == 0 {
        Seq::empty()
    } else {
        step(s, cs[0]).1 + run_events(step(s, cs[0]).0, cs.drop_first())
    }
}

proof fn lemma_atoms_append(a: Seq<EventM>, b: Seq<EventM>)
    ensures
        atoms(a + b) == atoms(a) + atoms(b),
    decreases b.len(),
{
    if b.len() == 0 {
        assert(a + b =~= a);
        assert(atoms(a) + Seq::<EventM>::empty() =~= atoms(a));
    } else {
        assert((a + b).drop_last() =~= a + b.drop_last());
        assert((a + b).last() == b.last());
        lemma_atoms_append(a, b.drop_last());
        assert(atoms(a) + atoms(b.drop_last()) + atom_of(b.last()) =~= atoms(a) + (atoms(b.drop_last())
            + atom_of(b.last())));
    }
}

proof fn lemma_atoms_single(e: EventM)
    ensures
        atoms(seq![e]) == atom_of(e),
{
    let one = seq![e];
    assert(one.drop_last() =~= Seq::<EventM>::empty());
    assert(one.last() == e);
    assert(atoms(Seq::<EventM>::empty()) == Seq::<EventM>::empty());
    assert(atoms(one) == atoms(one.drop_last()) + atom_of(one.last()));
    assert(Seq::<EventM>::empty() + atom_of(e) =~= atom_of(e));
}

proof fn lemma_atoms_step(s: StreamM, ch: char)
    ensures
        atoms(step(s, ch).1) == step(s, ch).1,
{
    let es = step(s, ch).1;
    if es.len() == 0 {
    } else if es.len() == 1 {
        lemma_atoms_single(es[0]);
        assert(es =~= seq![es[0]]);
        if let EventM::Draw(t) = es[0] {
            assert(t.len() == 1);
            assert(atom_of(es[0]) =~= seq![EventM::Draw(seq![t[0]])]);
            assert(t =~= seq![t[0]]);
        }
    } else {
        assert(es.len() == 2);
        lemma_atoms_single(es[0]);
        lemma_atoms_single(es[1]);
        assert(es =~= seq![es[0]] + seq![es[1]]);
        lemma_atoms_append(seq![es[0]], seq![es[1]]);
    }
}

proof fn lemma_run_events_plain(s: StreamM, cs: Seq<char>, n: int)
    requires
        s.state == State::Ground,
        0 <= n <= cs.len(),
        forall|j: int| 0 <= j < n ==> !spec_is_special(#[trigger] cs[j]),
    ensures
        run_events(s, cs) == atom_of(EventM::Draw(cs.take(n))) + run_events(s, cs.skip(n)),
    decreases n,
{
    if n == 0 {
        assert(cs.skip(0) =~= cs);
        assert(atom_of(EventM::Draw(cs.take(0))) =~= Seq::<EventM>::empty());
        assert(Seq::<EventM>::empty() + run_events(s, cs) =~= run_events(s, cs));
    } else {
        assert(!spec_is_special(cs[0]));
        assert(step(s, cs[0]) == (s, seq![EventM::Draw(seq![cs[0]])]));
        let t = cs.drop_first();
        assert forall|j: int| 0 <= j < n - 1 implies !spec_is_special(#[trigger] t[j]) by {
            assert(t[j] == cs[j + 1]);
        }
        lemma_run_events_plain(s, t, n - 1);
        assert(t.skip(n - 1) =~= cs.skip(n));
        assert(seq![EventM::Draw(seq![cs[0]])] + atom_of(EventM::Draw(t.take(n - 1))) =~= atom_of(
            EventM::Draw(cs.take(n)),
        ));
        assert(seq![EventM::Draw(seq![cs[0]])] + (atom_of(EventM::Draw(t.take(n - 1))) + run_events(
            s,
            cs.skip(n),
        )) =~= atom_of(EventM::Draw(cs.take(n))) + run_events(s, cs.skip(n)));
    }
}

proof fn lemma_feed_atoms(s: StreamM, cs: Seq<char>)
    ensures
        atoms(feed(s, cs).1) == run_events(s, cs),
    decreases cs.len(),
{
    if cs.len() == 0 {
    } else if s.state == State::Ground && !spec_is_special(cs[0]) {
        let n = plain_len(cs) as int;
        lemma_plain_len_bound(cs);
        lemma_plain_prefix(cs);
        lemma_run_events_plain(s, cs, n);
        lemma_feed_atoms(s, cs.skip(n));
        let d = EventM::Draw(cs.take(n));
        lemma_atoms_append(seq![d], feed(s, cs.skip(n)).1);
        lemma_atoms_single(d);
    } else {
        let a = step(s, cs[0]);
        lemma_feed_atoms(a.0, cs.drop_first());
        lemma_atoms_append(a.1, feed(a.0, cs.drop_first()).1);
        lemma_atoms_step(s, cs[0]);
    }
}

proof fn lemma_run_events_append(s: StreamM, a: Seq<char>, b: Seq<char>)
    ensures
        run_events(s, a + b) == run_events(s, a) + run_events(run(s, a), b),
    decreases a.len(),
{
    if a.len() == 0 {
        assert(a + b =~= b);
        assert(Seq::<EventM>::empty() + run_events(s, b) =~= run_events(s, b));
    } else {
        assert((a + b)[0] == a[0]);
        assert((a + b).drop_first() =~= a.drop_first() + b);
        let st = step(s, a[0]);
        lemma_run_events_append(st.0, a.drop_first(), b);
        assert(st.1 + (run_events(st.0, a.drop_first()) + run_events(run(st.0, a.drop_first()), b))
            =~= st.1 + run_events(st.0, a.drop_first()) + run_events(run(st.0, a.drop_first()), b));
    }
}

/// Feeding text in two pieces produces the same events as feeding it at
/// once, except that a run of drawn text cut by the split arrives as two
/// draws: with every draw split into single characters, the events agree.
pub proof fn lemma_feed_split_events(s: StreamM, a: Seq<char>, b: Seq<char>)
    requires
        stream_ok(s),
    ensures
        atoms(feed(s, a + b).1) == atoms(feed(s, a).1) + atoms(feed(feed(s, a).0, b).1),
{
    lemma_feed_atoms(s, a + b);
    lemma_feed_atoms(s, a);
    lemma_feed_run(s, a);
    lemma_feed_atoms(feed(s, a).0, b);
    lemma_run_events_append(s, a, b);
}


/// Feeding the UTF-8 bytes of a text (what `str::as_bytes` gives) to a
/// stream that decodes UTF-8 and holds no bytes back gives the same events
/// and the same final state as feeding the text, with no bytes left held
/// back.
pub proof fn lemma_feed_bytes_of_text(s: StreamM, cs: Seq<char>)
    requires
        s.use_utf8,
        s.pending_bytes.len() == 0,
    ensures
        feed_bytes_model(s, vstd::utf8::encode_utf8(cs)) == feed(s, cs),
{
    let bytes = vstd::utf8::encode_utf8(cs);
    lemma_decode_encoded(cs);
    assert(s.pending_bytes + bytes =~= bytes);
    assert(decode_input(s, bytes).1 =~= s);
}


/// `m` with `e` appended, a draw joining a draw that ends `m`.
pub open spec fn push_merged(m: Seq<EventM>, e: EventM) -> Seq<EventM> {
    if m.len() > 0 && m.last() is Draw && e is Draw {
        m.drop_last().push(EventM::Draw(m.last()->Draw_0 + e->Draw_0))
    } else {
        m.push(e)
    }
}

/// Events with every run of adjacent draws merged into one draw of their
/// texts joined.
pub open spec fn merge_draws(es: Seq<EventM>) -> Seq<EventM>
    decreases es.len(),
{
    if es.len() == 0 {
        Seq::empty()
    } else {
        push_merged(merge_draws(es.drop_last()), es.last())
    }
}

/// Appending events one at a time, merging draws.
pub open spec fn merge_onto(m: Seq<EventM>, es: Seq<EventM>) -> Seq<EventM>
    decreases es.len(),
{
    if es.len() == 0 {
        m
    } else {
        push_merged(merge_onto(m, es.drop_last()), es.last())
    }
}

/// No draw among `es` is empty.
pub open spec fn draws_nonempty(es: Seq<EventM>) -> bool {
    forall|i: int| 0 <= i < es.len() ==> (#[trigger] es[i] matches EventM::Draw(t) ==> t.len() > 0)
}

proof fn lemma_merge_append(a: Seq<EventM>, b: Seq<EventM>)
    ensures
        merge_draws(a + b) == merge_onto(merge_draws(a), b),
    decreases b.len(),
{
    if b.len() == 0 {
        assert(a + b =~= a);
    } else {
        assert((a + b).drop_last() =~= a + b.drop_last());
        assert((a + b).last() == b.last());
        lemma_merge_append(a, b.drop_last());
    }
}

proof fn lemma_merge_onto_chars(m: Seq<EventM>, t: Seq<char>, k: int)
    requires
        1 <= k <= t.len(),
    ensures
        merge_onto(m, atom_of(EventM::Draw(t)).take(k)) == push_merged(m, EventM::Draw(t.take(k))),
    decreases k,
{
    let at = atom_of(EventM::Draw(t));
    let ak = at.take(k);
    assert(ak.last() == EventM::Draw(seq![t[k - 1]]));
    assert(merge_onto(m, ak) == push_merged(merge_onto(m, ak.drop_last()), ak.last()));
    if k == 1 {
        assert(ak.drop_last() =~= Seq::<EventM>::empty());
        assert(merge_onto(m, Seq::<EventM>::empty()) == m);
        assert(t.take(1) =~= seq![t[0]]);
    } else {
        lemma_merge_onto_chars(m, t, k - 1);
        assert(ak.drop_last() =~= at.take(k - 1));
        let p = push_merged(m, EventM::Draw(t.take(k - 1)));
        assert(merge_onto(m, ak.drop_last()) == p);
        assert(t.take(k - 1) + seq![t[k - 1]] =~= t.take(k));
        if m.len() > 0 && m.last() is Draw {
            let d = m.last()->Draw_0;
            assert(p == m.drop_last().push(EventM::Draw(d + t.take(k - 1))));
            assert(p.drop_last() =~= m.drop_last());
            assert(p.last() == EventM::Draw(d + t.take(k - 1)));
            assert(d + t.take(k - 1) + seq![t[k - 1]] =~= d + t.take(k));
            assert(push_merged(p, ak.last()) =~= m.drop_last().push(EventM::Draw(d + t.take(k))));
        } else {
            assert(p == m.push(EventM::Draw(t.take(k - 1))));
            assert(p.drop_last() =~= m);
            assert(p.last() == EventM::Draw(t.take(k - 1)));
            assert(push_merged(p, ak.last()) =~= m.push(EventM::Draw(t.take(k))));
        }
    }
}

proof fn lemma_merge_atoms(es: Seq<EventM>)
    requires
        draws_nonempty(es),
    ensures
        merge_draws(atoms(es)) == merge_draws(es),
    decreases es.len(),
{
    if es.len() > 0 {
        let f = es.drop_last();
        let e = es.last();
        assert(draws_nonempty(f)) by {
            assert forall|i: int| 0 <= i < f.len() implies (#[trigger] f[i] matches EventM::Draw(t) ==> t.len()
                > 0) by {
                assert(f[i] == es[i]);
            }
        }
        lemma_merge_atoms(f);
        assert(atoms(es) == atoms(f) + atom_of(e));
        lemma_merge_append(atoms(f), atom_of(e));
        let m = merge_draws(atoms(f));
        assert(m == merge_draws(f));
        assert(merge_draws(es) == push_merged(merge_draws(f), e));
        assert(merge_draws(atoms(es)) == merge_onto(m, atom_of(e)));
        if let EventM::Draw(t) = e {
            assert(es[es.len() - 1] == e);
            assert(t.len() > 0);
            lemma_merge_onto_chars(m, t, t.len() as int);
            assert(atom_of(e).take(t.len() as int) =~= atom_of(e));
            assert(t.take(t.len() as int) =~= t);
        } else {
            assert(atom_of(e) == seq![e]);
            assert(seq![e].drop_last() =~= Seq::<EventM>::empty());
            assert(seq![e].last() == e);
            assert(merge_onto(m, Seq::<EventM>::empty()) == m);
            assert(merge_onto(m, seq![e]) == push_merged(merge_onto(m, seq![e].drop_last()), seq![e].last()));
        }
    }
}

proof fn lemma_step_draws_nonempty(s: StreamM, ch: char)
    ensures
        draws_nonempty(step(s, ch).1),
{
}

proof fn lemma_feed_draws_nonempty(s: StreamM, cs: Seq<char>)
    ensures
        draws_nonempty(feed(s, cs).1),
    decreases cs.len(),
{
    if cs.len() == 0 {
    } else if s.state == State::Ground && !spec_is_special(cs[0]) {
        let n = plain_len(cs) as int;
        lemma_plain_len_bound(cs);
        lemma_feed_draws_nonempty(s, cs.skip(n));
        let r = feed(s, cs.skip(n)).1;
        let all = seq![EventM::Draw(cs.take(n))] + r;
        assert forall|i: int| 0 <= i < all.len() implies (#[trigger] all[i] matches EventM::Draw(t) ==> t.len()
            > 0) by {
            if i > 0 {
                assert(all[i] == r[i - 1]);
            }
        }
    } else {
        let a = step(s, cs[0]);
        lemma_step_draws_nonempty(s, cs[0]);
        lemma_feed_draws_nonempty(a.0, cs.drop_first());
        let r = feed(a.0, cs.drop_first()).1;
        let all = a.1 + r;
        assert forall|i: int| 0 <= i < all.len() implies (#[trigger] all[i] matches EventM::Draw(t) ==> t.len()
            > 0) by {
            if i >= a.1.len() {
                assert(all[i] == r[i - a.1.len()]);
            } else {
                assert(all[i] == a.1[i]);
            }
        }
    }
}

/// Feeding text in two pieces produces, in order, the same events as
/// feeding it at once once every run of adjacent draws is merged into one
/// draw of their texts joined; the parser ends in the same state.
pub proof fn lemma_feed_split_merged(s: StreamM, a: Seq<char>, b: Seq<char>)
    requires
        stream_ok(s),
    ensures
        merge_draws(feed(s, a + b).1) == merge_draws(feed(s, a).1 + feed(feed(s, a).0, b).1),
        feed(s, a + b).0 == feed(feed(s, a).0, b).0,
{
    let x = feed(s, a).1;
    let y = feed(feed(s, a).0, b).1;
    lemma_feed_split(s, a, b);
    lemma_feed_split_events(s, a, b);
    lemma_feed_draws_nonempty(s, a + b);
    lemma_feed_draws_nonempty(s, a);
    lemma_feed_draws_nonempty(feed(s, a).0, b);
    lemma_merge_atoms(feed(s, a + b).1);
    lemma_atoms_append(x, y);
    assert(draws_nonempty(x + y)) by {
        assert forall|i: int| 0 <= i < (x + y).len() implies (#[trigger] (x + y)[i] matches EventM::Draw(t)
            ==> t.len() > 0) by {
            if i >= x.len() {
                assert((x + y)[i] == y[i - x.len()]);
            } else {
                assert((x + y)[i] == x[i]);
            }
        }
    }
    lemma_merge_atoms(x + y);
}

} // verus!
