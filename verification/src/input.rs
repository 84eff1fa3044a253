//! From the data bytes of a connection to what a session acts on: keys, and
//! the mouse reports of a terminal in extended mode (`ESC [ <`, a button code,
//! `;`, a column, `;`, a line, and `M` for a press or `m` for a release).
//!
//! A report that the bytes do not hold whole is not taken apart into keys:
//! parsing stops in front of it, and the caller keeps it for the next bytes.
//! So `ESC` as the last byte waits for the byte that follows it.

use vstd::prelude::*;

verus! {

/// The byte that opens an escape sequence.
pub const ESC: u8 = 0x1b;

/// A button of the mouse.
#[derive(Debug, Copy, Clone, PartialEq, Eq, Structural)]
pub enum MouseButton {
    Left,
    Middle,
    Right,
    WheelUp,
    WheelDown,
}

/// What the mouse did.
#[derive(Debug, Copy, Clone, PartialEq, Eq, Structural)]
pub enum MouseKind {
    Press(MouseButton),
    Release,
    Hold,
}

/// An event that a session acts on.
#[derive(Debug, Copy, Clone, PartialEq, Eq, Structural)]
pub enum SessionEvent {
    /// The peer's window has this size; zero stands for a side that the peer
    /// does not tell.
    Resize { width: u16, height: u16 },
    /// A key.
    Char(char),
    /// The mouse, on the cell `(x, y)`, counted from zero.
    Mouse { kind: MouseKind, x: u16, y: u16 },
}

/// Whether a byte is a decimal digit.
pub open spec fn is_digit(byte: u8) -> bool {
    0x30 <= byte <= 0x39
}

/// Where the run of digits that starts at `at` ends.
pub open spec fn digits_end(s: Seq<u8>, at: int) -> int
    decreases s.len() - at,
{
    if at < 0 || at >= s.len() || !is_digit(s[at]) {
        at
    } else {
        digits_end(s, at + 1)
    }
}

/// The number that the digits from `from` up to `to` spell.
pub open spec fn number(s: Seq<u8>, from: int, to: int) -> nat
    decreases to - from,
{
    if to <= from {
        0
    } else {
        (number(s, from, to - 1) * 10 + (s[to - 1] - 0x30)) as nat
    }
}

/// A number read from the bytes, and the position after its digits.
pub struct Field {
    pub value: u16,
    pub end: int,
}

/// What stands where a number of a report is due.
pub enum Digits {
    /// Digits up to the end of the bytes, or the end of the bytes itself:
    /// the number may go on.
    Open,
    /// A number of at least one digit that sixteen bits hold, and a byte
    /// behind it.
    Closed(Field),
    /// No digit, or a number that sixteen bits do not hold.
    Bad,
}

/// What stands at `at`, where a number of a report is due.
pub open spec fn digits_at(s: Seq<u8>, at: int) -> Digits {
    let end = digits_end(s, at);
    if number(s, at, end) > u16::MAX {
        Digits::Bad
    } else if end >= s.len() {
        Digits::Open
    } else if at < end {
        Digits::Closed(Field { value: number(s, at, end) as u16, end })
    } else {
        Digits::Bad
    }
}

/// What a button code says, for a report that ends in `M` (`pressed`) or `m`.
pub open spec fn mouse_kind(code: u16, pressed: bool) -> Option<MouseKind> {
    if code == 0 || code == 1 || code == 2 || code == 64 || code == 65 {
        if !pressed {
            Some(MouseKind::Release)
        } else if code == 0 {
            Some(MouseKind::Press(MouseButton::Left))
        } else if code == 1 {
            Some(MouseKind::Press(MouseButton::Middle))
        } else if code == 2 {
            Some(MouseKind::Press(MouseButton::Right))
        } else if code == 64 {
            Some(MouseKind::Press(MouseButton::WheelUp))
        } else {
            Some(MouseKind::Press(MouseButton::WheelDown))
        }
    } else if code == 32 {
        Some(MouseKind::Hold)
    } else if code == 3 {
        Some(MouseKind::Release)
    } else {
        None
    }
}

/// The event of a report. The terminal counts columns and lines from one,
/// the cells of a board are counted from zero. A report with a button code
/// that says nothing, or with a column or line of zero, carries no event.
pub open spec fn mouse_event(code: u16, column: u16, line: u16, pressed: bool) -> Option<SessionEvent> {
    match mouse_kind(code, pressed) {
        Some(kind) => if column >= 1 && line >= 1 {
            Some(SessionEvent::Mouse { kind, x: (column - 1) as u16, y: (line - 1) as u16 })
        } else {
            None
        },
        None => None,
    }
}

/// What stands at a position of the data.
pub enum Scan {
    /// A whole mouse report: the event it carries, if any, and the position
    /// after it.
    Report { event: Option<SessionEvent>, end: int },
    /// The start of a mouse report, which the end of the bytes cuts short.
    Unfinished,
    /// No mouse report, whatever may follow.
    Nothing,
}

/// What stands at `at`.
pub open spec fn scan_at(s: Seq<u8>, at: int) -> Scan {
    if at < 0 || at >= s.len() || s[at] != ESC {
        Scan::Nothing
    } else if at + 1 >= s.len() {
        Scan::Unfinished
    } else if s[at + 1] != 0x5b {
        Scan::Nothing
    } else if at + 2 >= s.len() {
        Scan::Unfinished
    } else if s[at + 2] != 0x3c {
        Scan::Nothing
    } else {
        match digits_at(s, at + 3) {
            Digits::Open => Scan::Unfinished,
            Digits::Bad => Scan::Nothing,
            Digits::Closed(code) => if s[code.end] != 0x3b {
                Scan::Nothing
            } else {
                match digits_at(s, code.end + 1) {
                    Digits::Open => Scan::Unfinished,
                    Digits::Bad => Scan::Nothing,
                    Digits::Closed(column) => if s[column.end] != 0x3b {
                        Scan::Nothing
                    } else {
                        match digits_at(s, column.end + 1) {
                            Digits::Open => Scan::Unfinished,
                            Digits::Bad => Scan::Nothing,
                            Digits::Closed(line) => if s[line.end] == 0x4d || s[line.end] == 0x6d {
                                Scan::Report {
                                    event: mouse_event(
                                        code.value,
                                        column.value,
                                        line.value,
                                        s[line.end] == 0x4d,
                                    ),
                                    end: line.end + 1,
                                }
                            } else {
                                Scan::Nothing
                            },
                        }
                    },
                }
            },
        }
    }
}

/// The key that a data byte stands for: the character of that code for a
/// byte of the ASCII range, none for any other byte.
pub open spec fn key_of(byte: u8) -> Option<SessionEvent> {
    if byte < 128 {
        Some(SessionEvent::Char(byte as char))
    } else {
        None
    }
}

/// No event or one, as a sequence.
pub open spec fn given(event: Option<SessionEvent>) -> Seq<SessionEvent> {
    match event {
        Some(event) => seq![event],
        None => Seq::empty(),
    }
}

/// What a stretch of data gives: its events, and the position at which
/// parsing stopped.
pub struct Parsed {
    pub events: Seq<SessionEvent>,
    pub end: int,
}

/// What the data bytes from `at` on give. A whole mouse report gives its
/// event; the start of one that the end of the bytes cuts short stops the
/// parsing, and gives nothing; any other byte is a key by itself.
pub open spec fn parsed_from(s: Seq<u8>, at: int) -> Parsed
    decreases s.len() - at,
{
    if at < 0 || at >= s.len() {
        Parsed { events: Seq::empty(), end: at }
    } else {
        match scan_at(s, at) {
            Scan::Report { event, end } => if at < end <= s.len() {
                Parsed { events: given(event) + parsed_from(s, end).events, end: parsed_from(s, end).end }
            } else {
                Parsed { events: Seq::empty(), end: at }
            },
            Scan::Unfinished => Parsed { events: Seq::empty(), end: at },
            Scan::Nothing => Parsed {
                events: given(key_of(s[at])) + parsed_from(s, at + 1).events,
                end: parsed_from(s, at + 1).end,
            },
        }
    }
}

/// What a run of data bytes gives: in `end`, the number of bytes that the
/// events take up.
pub open spec fn input_parsed(s: Seq<u8>) -> Parsed {
    parsed_from(s, 0)
}

/// A run of digits ends after its start and within the bytes.
pub proof fn lemma_digits_end_bounds(s: Seq<u8>, at: int)
    requires
        0 <= at <= s.len(),
    ensures
        at <= digits_end(s, at) <= s.len(),
        forall|i: int| at <= i < digits_end(s, at) ==> is_digit(#[trigger] s[i]),
    decreases s.len() - at,
{
    if at < s.len() && is_digit(s[at]) {
        lemma_digits_end_bounds(s, at + 1);
    }
}

/// More digits do not spell a smaller number.
pub proof fn lemma_number_grows(s: Seq<u8>, from: int, mid: int, to: int)
    requires
        from <= mid <= to,
        forall|i: int| from <= i < to ==> is_digit(#[trigger] s[i]),
    ensures
        number(s, from, mid) <= number(s, from, to),
    decreases to - mid,
{
    if mid < to {
        lemma_number_grows(s, from, mid, to - 1);
        assert(is_digit(s[to - 1]));
    }
}

/// A whole report ends after its start and within the bytes.
pub proof fn lemma_scan_bounds(s: Seq<u8>, at: int)
    requires
        0 <= at,
    ensures
        scan_at(s, at) is Report ==> at < scan_at(s, at)->end <= s.len(),
{
    if at + 2 < s.len() {
        lemma_digits_end_bounds(s, at + 3);
        if let Digits::Closed(code) = digits_at(s, at + 3) {
            lemma_digits_end_bounds(s, code.end + 1);
            if let Digits::Closed(column) = digits_at(s, code.end + 1) {
                lemma_digits_end_bounds(s, column.end + 1);
            }
        }
    }
}

/// Parsing stops within the bytes: at their end, or in front of a report that
/// is cut short.
pub proof fn lemma_parsed_bounds(s: Seq<u8>, at: int)
    requires
        0 <= at <= s.len(),
    ensures
        at <= parsed_from(s, at).end <= s.len(),
        parsed_from(s, at).end < s.len() ==> scan_at(s, parsed_from(s, at).end) is Unfinished,
    decreases s.len() - at,
{
    lemma_scan_bounds(s, at);
    if at < s.len() {
        match scan_at(s, at) {
            Scan::Report { event, end } => {
                lemma_parsed_bounds(s, end);
            },
            Scan::Unfinished => {},
            Scan::Nothing => {
                lemma_parsed_bounds(s, at + 1);
            },
        }
    }
}

/// A run of digits that ends before the bytes do stays the same when more
/// bytes follow; one that ends with the bytes can only grow.
pub proof fn lemma_digits_end_extends(s: Seq<u8>, t: Seq<u8>, at: int)
    requires
        0 <= at <= s.len(),
    ensures
        digits_end(s, at) < s.len() ==> digits_end(s + t, at) == digits_end(s, at),
        digits_end(s, at) <= digits_end(s + t, at),
    decreases s.len() - at,
{
    if at < s.len() && is_digit(s[at]) {
        lemma_digits_end_extends(s, t, at + 1);
    } else if at == s.len() {
        lemma_digits_end_bounds(s + t, at);
    }
}

/// The number that digits spell does not depend on what follows them.
pub proof fn lemma_number_extends(s: Seq<u8>, t: Seq<u8>, from: int, to: int)
    requires
        0 <= from,
        to <= s.len(),
    ensures
        number(s + t, from, to) == number(s, from, to),
    decreases to - from,
{
    if from < to {
        lemma_number_extends(s, t, from, to - 1);
    }
}

/// A number with a byte behind it, and a place where no number can stand,
/// stay what they are when more bytes follow.
pub proof fn lemma_digits_extend(s: Seq<u8>, t: Seq<u8>, at: int)
    requires
        0 <= at <= s.len(),
    ensures
        digits_at(s, at) is Closed ==> digits_at(s + t, at) == digits_at(s, at),
        digits_at(s, at) is Bad ==> digits_at(s + t, at) is Bad,
{
    let end = digits_end(s, at);
    let far = digits_end(s + t, at);
    lemma_digits_end_bounds(s, at);
    lemma_digits_end_bounds(s + t, at);
    lemma_digits_end_extends(s, t, at);
    lemma_number_extends(s, t, at, end);
    if number(s, at, end) > u16::MAX {
        lemma_number_grows(s + t, at, end, far);
    }
}

/// A whole report, and a place where no report can start, stay what they are
/// when more bytes follow.
pub proof fn lemma_scan_extends(s: Seq<u8>, t: Seq<u8>, at: int)
    requires
        0 <= at < s.len(),
    ensures
        scan_at(s, at) is Report ==> scan_at(s + t, at) == scan_at(s, at),
        scan_at(s, at) is Nothing ==> scan_at(s + t, at) is Nothing,
{
    if s[at] == ESC && at + 2 < s.len() && s[at + 1] == 0x5b && s[at + 2] == 0x3c {
        lemma_digits_extend(s, t, at + 3);
        if let Digits::Closed(code) = digits_at(s, at + 3) {
            lemma_digits_end_bounds(s, at + 3);
            if s[code.end] == 0x3b {
                lemma_digits_extend(s, t, code.end + 1);
                if let Digits::Closed(column) = digits_at(s, code.end + 1) {
                    lemma_digits_end_bounds(s, code.end + 1);
                    if s[column.end] == 0x3b {
                        lemma_digits_extend(s, t, column.end + 1);
                        lemma_digits_end_bounds(s, column.end + 1);
                    }
                }
            }
        }
    }
}

/// Where a run of digits ends, seen from `by` bytes further on.
pub proof fn lemma_digits_end_moves(s: Seq<u8>, by: int, at: int)
    requires
        0 <= by <= s.len(),
        0 <= at,
    ensures
        digits_end(s.skip(by), at) == digits_end(s, at + by) - by,
    decreases s.len() - by - at,
{
    if at + by < s.len() && is_digit(s[at + by]) {
        lemma_digits_end_moves(s, by, at + 1);
    }
}

/// The number that digits spell, seen from `by` bytes further on.
pub proof fn lemma_number_moves(s: Seq<u8>, by: int, from: int, to: int)
    requires
        0 <= by,
        0 <= from,
        to + by <= s.len(),
    ensures
        number(s.skip(by), from, to) == number(s, from + by, to + by),
    decreases to - from,
{
    if from < to {
        lemma_number_moves(s, by, from, to - 1);
    }
}

/// What stands at a position, seen from `by` bytes further on.
pub open spec fn scan_moved(scan: Scan, by: int) -> Scan {
    match scan {
        Scan::Report { event, end } => Scan::Report { event, end: end - by },
        other => other,
    }
}

/// What stands where a number is due, seen from `by` bytes further on.
pub open spec fn digits_moved(digits: Digits, by: int) -> Digits {
    match digits {
        Digits::Closed(field) => Digits::Closed(Field { value: field.value, end: field.end - by }),
        other => other,
    }
}

/// What stands where a number is due, seen from `by` bytes further on.
pub proof fn lemma_digits_move(s: Seq<u8>, by: int, at: int)
    requires
        0 <= by <= s.len(),
        0 <= at <= s.len() - by,
    ensures
        digits_at(s.skip(by), at) == digits_moved(digits_at(s, at + by), by),
{
    lemma_digits_end_moves(s, by, at);
    lemma_digits_end_bounds(s, at + by);
    lemma_number_moves(s, by, at, digits_end(s, at + by) - by);
}

/// What stands at a position, seen from `by` bytes further on.
pub proof fn lemma_scan_moves(s: Seq<u8>, by: int, at: int)
    requires
        0 <= by <= s.len(),
        0 <= at,
    ensures
        scan_at(s.skip(by), at) == scan_moved(scan_at(s, at + by), by),
{
    if at + by + 2 < s.len() && s[at + by] == ESC && s[at + by + 1] == 0x5b && s[at + by + 2] == 0x3c {
        lemma_digits_move(s, by, at + 3);
        if let Digits::Closed(code) = digits_at(s, at + by + 3) {
            lemma_digits_end_bounds(s, at + by + 3);
            if s[code.end] == 0x3b {
                lemma_digits_move(s, by, code.end - by + 1);
                if let Digits::Closed(column) = digits_at(s, code.end + 1) {
                    lemma_digits_end_bounds(s, code.end + 1);
                    if s[column.end] == 0x3b {
                        lemma_digits_move(s, by, column.end - by + 1);
                        lemma_digits_end_bounds(s, column.end + 1);
                    }
                }
            }
        }
    }
}

/// What data gives, seen from `by` bytes further on.
pub proof fn lemma_parsed_moves(s: Seq<u8>, by: int, at: int)
    requires
        0 <= by <= s.len(),
        0 <= at,
    ensures
        parsed_from(s.skip(by), at) == (Parsed {
            events: parsed_from(s, at + by).events,
            end: parsed_from(s, at + by).end - by,
        }),
    decreases s.len() - by - at,
{
    lemma_scan_moves(s, by, at);
    lemma_scan_bounds(s, at + by);
    if at + by < s.len() {
        match scan_at(s, at + by) {
            Scan::Report { event, end } => {
                lemma_parsed_moves(s, by, end - by);
            },
            Scan::Unfinished => {},
            Scan::Nothing => {
                lemma_parsed_moves(s, by, at + 1);
            },
        }
    }
}

/// What `s` gives, `s + t` gives too, and parsing `s + t` goes on from where
/// parsing `s` stopped.
pub proof fn lemma_parsed_extends(s: Seq<u8>, t: Seq<u8>, at: int)
    requires
        0 <= at <= s.len(),
    ensures
        parsed_from(s + t, at).events == parsed_from(s, at).events + parsed_from(
            s + t,
            parsed_from(s, at).end,
        ).events,
        parsed_from(s + t, at).end == parsed_from(s + t, parsed_from(s, at).end).end,
    decreases s.len() - at,
{
    let whole = parsed_from(s + t, at);
    lemma_scan_bounds(s, at);
    if at < s.len() {
        lemma_scan_extends(s, t, at);
        match scan_at(s, at) {
            Scan::Report { event, end } => {
                lemma_parsed_extends(s, t, end);
                let head = parsed_from(s, end);
                assert(given(event) + (head.events + parsed_from(s + t, head.end).events) =~= (given(event)
                    + head.events) + parsed_from(s + t, head.end).events);
            },
            Scan::Unfinished => {
                assert(Seq::<SessionEvent>::empty() + whole.events =~= whole.events);
            },
            Scan::Nothing => {
                lemma_parsed_extends(s, t, at + 1);
                let head = parsed_from(s, at + 1);
                let key = given(key_of(s[at]));
                assert(key + (head.events + parsed_from(s + t, head.end).events) =~= (key + head.events)
                    + parsed_from(s + t, head.end).events);
            },
        }
    } else {
        assert(Seq::<SessionEvent>::empty() + whole.events =~= whole.events);
    }
}

/// Data that comes in two parts gives what it gives in one. Parsing the
/// first part, carrying what it left over to the front of the second part,
/// and parsing that, gives the events of both parts together, in their
/// order, and leaves the same bytes over.
pub proof fn lemma_parse_resumes(first: Seq<u8>, second: Seq<u8>)
    ensures
        ({
            let head = input_parsed(first);
            let carried = first.skip(head.end);
            let tail = input_parsed(carried + second);
            let whole = input_parsed(first + second);
            &&& 0 <= head.end <= first.len()
            &&& whole.events == head.events + tail.events
            &&& whole.end == head.end + tail.end
            &&& (first + second).skip(whole.end) == (carried + second).skip(tail.end)
        }),
{
    let head = input_parsed(first);
    let carried = first.skip(head.end);
    let tail = input_parsed(carried + second);
    let whole = input_parsed(first + second);
    lemma_parsed_bounds(first, 0);
    lemma_parsed_extends(first, second, 0);
    lemma_parsed_moves(first + second, head.end, 0);
    assert((first + second).skip(head.end) =~= carried + second);
    lemma_parsed_bounds(carried + second, 0);
    assert((first + second).skip(whole.end) =~= (carried + second).skip(tail.end));
}

/// What `read_digits` found.
enum DigitsRead {
    Open,
    Closed(u16, usize),
    Bad,
}

/// Reads what stands at `at`, where a number of a report is due.
fn read_digits(bytes: &[u8], at: usize) -> (found: DigitsRead)
    requires
        at <= bytes.len(),
    ensures
        match found {
            DigitsRead::Open => digits_at(bytes@, at as int) is Open,
            DigitsRead::Closed(value, end) => digits_at(bytes@, at as int) == Digits::Closed(
                Field { value, end: end as int },
            ) && at < end < bytes.len(),
            DigitsRead::Bad => digits_at(bytes@, at as int) is Bad,
        },
{
    let mut end: usize = at;
    let mut value: u32 = 0;
    let mut fits = true;
    proof {
        lemma_digits_end_bounds(bytes@, at as int);
    }
    while end < bytes.len() && 0x30 <= bytes[end] && bytes[end] <= 0x39
        invariant
            at <= end <= bytes.len(),
            digits_end(bytes@, at as int) == digits_end(bytes@, end as int),
            end <= digits_end(bytes@, at as int) <= bytes.len(),
            forall|i: int| at <= i < digits_end(bytes@, at as int) ==> is_digit(#[trigger] bytes@[i]),
            fits ==> value == number(bytes@, at as int, end as int) && value <= u16::MAX,
            !fits ==> number(bytes@, at as int, end as int) > u16::MAX,
        decreases bytes.len() - end,
    {
        let digit = (bytes[end] - 0x30) as u32;
        proof {
            lemma_digits_end_bounds(bytes@, end + 1);
            lemma_number_grows(bytes@, at as int, end as int, end + 1);
        }
        if fits {
            value = value * 10 + digit;
            if value > 0xffff {
                fits = false;
            }
        }
        end += 1;
    }
    if !fits {
        DigitsRead::Bad
    } else if end >= bytes.len() {
        DigitsRead::Open
    } else if at < end {
        DigitsRead::Closed(value as u16, end)
    } else {
        DigitsRead::Bad
    }
}

/// The event of a report with these numbers.
fn read_mouse(code: u16, column: u16, line: u16, pressed: bool) -> (event: Option<SessionEvent>)
    ensures
        event == mouse_event(code, column, line, pressed),
{
    let kind = if code == 0 || code == 1 || code == 2 || code == 64 || code == 65 {
        if !pressed {
            MouseKind::Release
        } else if code == 0 {
            MouseKind::Press(MouseButton::Left)
        } else if code == 1 {
            MouseKind::Press(MouseButton::Middle)
        } else if code == 2 {
            MouseKind::Press(MouseButton::Right)
        } else if code == 64 {
            MouseKind::Press(MouseButton::WheelUp)
        } else {
            MouseKind::Press(MouseButton::WheelDown)
        }
    } else if code == 32 {
        MouseKind::Hold
    } else if code == 3 {
        MouseKind::Release
    } else {
        return None;
    };
    if column >= 1 && line >= 1 {
        Some(SessionEvent::Mouse { kind, x: column - 1, y: line - 1 })
    } else {
        None
    }
}

/// What `read_scan` found.
enum ScanRead {
    Report(Option<SessionEvent>, usize),
    Unfinished,
    Nothing,
}

/// Reads what stands at `at`.
fn read_scan(bytes: &[u8], at: usize) -> (found: ScanRead)
    requires
        at < bytes.len(),
    ensures
        match found {
            ScanRead::Report(event, end) => scan_at(bytes@, at as int) == (Scan::Report {
                event,
                end: end as int,
            }) && at < end <= bytes.len(),
            ScanRead::Unfinished => scan_at(bytes@, at as int) is Unfinished,
            ScanRead::Nothing => scan_at(bytes@, at as int) is Nothing,
        },
{
    let len = bytes.len();
    if bytes[at] != ESC {
        return ScanRead::Nothing;
    }
    if len - at < 2 {
        return ScanRead::Unfinished;
    }
    if bytes[at + 1] != 0x5b {
        return ScanRead::Nothing;
    }
    if len - at < 3 {
        return ScanRead::Unfinished;
    }
    if bytes[at + 2] != 0x3c {
        return ScanRead::Nothing;
    }
    let (code, code_end) = match read_digits(bytes, at + 3) {
        DigitsRead::Closed(value, end) => (value, end),
        DigitsRead::Open => {
            return ScanRead::Unfinished;
        },
        DigitsRead::Bad => {
            return ScanRead::Nothing;
        },
    };
    if bytes[code_end] != 0x3b {
        return ScanRead::Nothing;
    }
    let (column, column_end) = match read_digits(bytes, code_end + 1) {
        DigitsRead::Closed(value, end) => (value, end),
        DigitsRead::Open => {
            return ScanRead::Unfinished;
        },
        DigitsRead::Bad => {
            return ScanRead::Nothing;
        },
    };
    if bytes[column_end] != 0x3b {
        return ScanRead::Nothing;
    }
    let (line, line_end) = match read_digits(bytes, column_end + 1) {
        DigitsRead::Closed(value, end) => (value, end),
        DigitsRead::Open => {
            return ScanRead::Unfinished;
        },
        DigitsRead::Bad => {
            return ScanRead::Nothing;
        },
    };
    let last = bytes[line_end];
    if last != 0x4d && last != 0x6d {
        return ScanRead::Nothing;
    }
    ScanRead::Report(read_mouse(code, column, line, last == 0x4d), line_end + 1)
}

/// The key that a data byte stands for.
pub fn read_key(byte: u8) -> (event: Option<SessionEvent>)
    ensures
        event == key_of(byte),
{
    if byte < 128 {
        Some(SessionEvent::Char(byte as char))
    } else {
        None
    }
}

/// The events of a run of data bytes, in order, and the number of bytes
/// that they take up. A whole mouse report gives its event and any other
/// byte is a key by itself. Where the bytes end within a mouse report,
/// parsing stops in front of that report: the caller keeps it and parses
/// again when more bytes have come.
pub fn parse_input(bytes: &[u8]) -> (out: (Vec<SessionEvent>, usize))
    ensures
        out.0@ == input_parsed(bytes@).events,
        out.1 == input_parsed(bytes@).end,
        out.1 <= bytes.len(),
        out.1 < bytes.len() ==> scan_at(bytes@, out.1 as int) is Unfinished,
{
    let mut events: Vec<SessionEvent> = Vec::new();
    let mut at: usize = 0;
    assert(events@ + parsed_from(bytes@, 0).events =~= input_parsed(bytes@).events);
    while at < bytes.len()
        invariant_except_break
            at <= bytes.len(),
            events@ + parsed_from(bytes@, at as int).events == input_parsed(bytes@).events,
            parsed_from(bytes@, at as int).end == input_parsed(bytes@).end,
        ensures
            at <= bytes.len(),
            events@ == input_parsed(bytes@).events,
            at == input_parsed(bytes@).end,
            at < bytes.len() ==> scan_at(bytes@, at as int) is Unfinished,
        decreases bytes.len() - at,
    {
        let ghost before = events@;
        let (event, end) = match read_scan(bytes, at) {
            ScanRead::Report(event, end) => (event, end),
            ScanRead::Unfinished => {
                assert(before + Seq::<SessionEvent>::empty() =~= before);
                break ;
            },
            ScanRead::Nothing => (read_key(bytes[at]), at + 1),
        };
        if let Some(event) = event {
            events.push(event);
        }
        proof {
            let rest = parsed_from(bytes@, end as int).events;
            assert(before + (given(event) + rest) =~= events@ + rest);
            if end == bytes.len() {
                assert(events@ + Seq::<SessionEvent>::empty() =~= events@);
            }
        }
        at = end;
    }
    (events, at)
}

} // verus!
