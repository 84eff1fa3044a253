//! Telnet framing: from bytes to events and from commands to bytes.
//!
//! A stream is a succession of units. A unit is a run of data bytes, a
//! three-byte negotiation (`IAC`, a direction, an option), a subnegotiation
//! (`IAC SB`, an option, a body, `IAC SE`), a doubled `IAC` standing for one
//! data byte, or `IAC` and one other command byte. Decoding never looks past
//! the last complete unit: what follows it is left for the next read.

use vstd::prelude::*;

verus! {

/// "Interpret as command": the byte that opens every control sequence.
pub const IAC: u8 = 255;

/// The peer is asked to stop using an option.
pub const DONT: u8 = 254;

/// The peer is asked to use an option.
pub const DO: u8 = 253;

/// The sender refuses to use an option.
pub const WONT: u8 = 252;

/// The sender offers to use an option.
pub const WILL: u8 = 251;

/// Opens a subnegotiation.
pub const SB: u8 = 250;

/// Closes a subnegotiation.
pub const SE: u8 = 240;

/// The option under which the peer's echo is negotiated.
pub const OPTION_ECHO: u8 = 1;

/// The option under which the peer reports the size of its window.
pub const OPTION_WINDOW_SIZE: u8 = 31;

/// The option under which line-oriented input is negotiated.
pub const OPTION_LINE_MODE: u8 = 34;

/// Which of the four negotiation verbs a command carries.
#[derive(Debug, Copy, Clone, PartialEq, Eq, Structural)]
pub enum Direction {
    Do,
    Dont,
    Will,
    Wont,
}

impl Direction {
    /// The byte that stands for the verb on the wire.
    pub open spec fn code(self) -> u8 {
        match self {
            Direction::Do => DO,
            Direction::Dont => DONT,
            Direction::Will => WILL,
            Direction::Wont => WONT,
        }
    }

    /// The verb that a byte stands for, where it stands for one.
    pub open spec fn of_code(byte: u8) -> Option<Direction> {
        if byte == DO {
            Some(Direction::Do)
        } else if byte == DONT {
            Some(Direction::Dont)
        } else if byte == WILL {
            Some(Direction::Will)
        } else if byte == WONT {
            Some(Direction::Wont)
        } else {
            None
        }
    }

    /// The byte that stands for the verb on the wire.
    pub fn to_byte(self) -> (byte: u8)
        ensures
            byte == self.code(),
    {
        match self {
            Direction::Do => DO,
            Direction::Dont => DONT,
            Direction::Will => WILL,
            Direction::Wont => WONT,
        }
    }

    /// The verb that a byte stands for; `None` for any other byte.
    pub fn from_byte(byte: u8) -> (direction: Option<Direction>)
        ensures
            direction == Direction::of_code(byte),
    {
        if byte == DO {
            Some(Direction::Do)
        } else if byte == DONT {
            Some(Direction::Dont)
        } else if byte == WILL {
            Some(Direction::Will)
        } else if byte == WONT {
            Some(Direction::Wont)
        } else {
            None
        }
    }
}

/// What one decoded event says, with its bytes as a sequence.
pub enum Frame {
    Negotiate { direction: Direction, option: u8 },
    Subnegotiation { option: u8, payload: Seq<u8> },
    Resize { width: u16, height: u16 },
    RawInput { bytes: Seq<u8> },
}

/// An event decoded from the peer's byte stream.
#[derive(Debug, Clone, PartialEq, Eq)]
pub enum ProtocolEvent {
    /// A negotiation command about one option.
    Negotiate { direction: Direction, option: u8 },
    /// A subnegotiation with its body, doubled `IAC`s undone.
    Subnegotiation { option: u8, payload: Vec<u8> },
    /// The peer's window size: a window-size subnegotiation of four bytes.
    Resize { width: u16, height: u16 },
    /// A run of data bytes.
    RawInput { bytes: Vec<u8> },
}

impl View for ProtocolEvent {
    type V = Frame;

    open spec fn view(&self) -> Frame {
        match *self {
            ProtocolEvent::Negotiate { direction, option } => Frame::Negotiate { direction, option },
            ProtocolEvent::Subnegotiation { option, payload } => Frame::Subnegotiation {
                option,
                payload: payload@,
            },
            ProtocolEvent::Resize { width, height } => Frame::Resize { width, height },
            ProtocolEvent::RawInput { bytes } => Frame::RawInput { bytes: bytes@ },
        }
    }
}

/// The frames of a list of events.
pub open spec fn frames(events: Seq<ProtocolEvent>) -> Seq<Frame> {
    events.map_values(|event: ProtocolEvent| event@)
}

/// The number that two bytes spell, the high one first.
pub open spec fn word(high: u8, low: u8) -> u16 {
    (high * 256 + low) as u16
}

/// The position at which the run of data bytes that starts at `at` ends: the
/// next `IAC`, or the end of the bytes.
pub open spec fn data_end(s: Seq<u8>, at: int) -> int
    decreases s.len() - at,
{
    if at < 0 || at >= s.len() || s[at] == IAC {
        at
    } else {
        data_end(s, at + 1)
    }
}

/// The body of a subnegotiation: its payload, and the position after the
/// `IAC SE` that closes it.
pub struct Body {
    pub payload: Seq<u8>,
    pub end: int,
}

/// `head` put in front of a body that was found.
pub open spec fn prefixed(head: Seq<u8>, rest: Option<Body>) -> Option<Body> {
    match rest {
        Some(rest) => Some(Body { payload: head + rest.payload, end: rest.end }),
        None => None,
    }
}

/// The body of a subnegotiation that starts at `at`: its payload and the
/// position after the closing `IAC SE`; `None` where the bytes end before
/// that. Only `IAC SE` closes the body. `IAC IAC` stands for one payload byte
/// 255; `IAC` before any other byte is kept with that byte; a lone `SE` is a
/// payload byte like any other.
pub open spec fn body(s: Seq<u8>, at: int) -> Option<Body>
    decreases s.len() - at,
{
    if at < 0 || at >= s.len() {
        None
    } else if s[at] != IAC {
        prefixed(seq![s[at]], body(s, at + 1))
    } else if at + 1 >= s.len() {
        None
    } else if s[at + 1] == SE {
        Some(Body { payload: Seq::empty(), end: at + 2 })
    } else if s[at + 1] == IAC {
        prefixed(seq![IAC], body(s, at + 2))
    } else {
        prefixed(seq![IAC, s[at + 1]], body(s, at + 2))
    }
}

/// What a subnegotiation decodes to: a resize where it is a window-size
/// report of four bytes, the subnegotiation itself otherwise.
pub open spec fn subnegotiation_frame(option: u8, payload: Seq<u8>) -> Frame {
    if option == OPTION_WINDOW_SIZE && payload.len() == 4 {
        Frame::Resize { width: word(payload[0], payload[1]), height: word(payload[2], payload[3]) }
    } else {
        Frame::Subnegotiation { option, payload }
    }
}

/// The first unit of a stream.
pub enum Unit {
    /// The bytes end before the unit does.
    Incomplete,
    /// The unit ends at `end` and decodes to `frame`; to nothing where it is
    /// a command that carries no event.
    Complete { frame: Option<Frame>, end: int },
}

/// The unit that starts at `at`.
pub open spec fn unit_at(s: Seq<u8>, at: int) -> Unit {
    if at < 0 || at >= s.len() {
        Unit::Incomplete
    } else if s[at] != IAC {
        Unit::Complete {
            frame: Some(Frame::RawInput { bytes: s.subrange(at, data_end(s, at)) }),
            end: data_end(s, at),
        }
    } else if at + 1 >= s.len() {
        Unit::Incomplete
    } else if Direction::of_code(s[at + 1]) is Some {
        if at + 2 >= s.len() {
            Unit::Incomplete
        } else {
            Unit::Complete {
                frame: Some(
                    Frame::Negotiate { direction: Direction::of_code(s[at + 1])->0, option: s[at + 2] },
                ),
                end: at + 3,
            }
        }
    } else if s[at + 1] == SB {
        if at + 2 >= s.len() {
            Unit::Incomplete
        } else {
            match body(s, at + 3) {
                Some(found) => Unit::Complete {
                    frame: Some(subnegotiation_frame(s[at + 2], found.payload)),
                    end: found.end,
                },
                None => Unit::Incomplete,
            }
        }
    } else if s[at + 1] == IAC {
        Unit::Complete { frame: Some(Frame::RawInput { bytes: seq![IAC] }), end: at + 2 }
    } else {
        Unit::Complete { frame: None, end: at + 2 }
    }
}

/// No frame or one, as a sequence.
pub open spec fn emitted(frame: Option<Frame>) -> Seq<Frame> {
    match frame {
        Some(frame) => seq![frame],
        None => Seq::empty(),
    }
}

/// What a stretch of a stream decodes to: the frames of its complete units,
/// and the position at which the last of them ends.
pub struct Decoding {
    pub frames: Seq<Frame>,
    pub end: int,
}

/// The decoding of the units from `at` on.
pub open spec fn decoded_from(s: Seq<u8>, at: int) -> Decoding
    decreases s.len() - at,
{
    match unit_at(s, at) {
        Unit::Complete { frame, end } => if at < end <= s.len() {
            Decoding { frames: emitted(frame) + decoded_from(s, end).frames, end: decoded_from(s, end).end }
        } else {
            Decoding { frames: Seq::empty(), end: at }
        },
        Unit::Incomplete => Decoding { frames: Seq::empty(), end: at },
    }
}

/// The decoding of a whole buffer: its frames, and in `end` the number of
/// bytes that they take up.
pub open spec fn decoded(s: Seq<u8>) -> Decoding {
    decoded_from(s, 0)
}

/// A run of data ends after its start and within the bytes.
pub proof fn lemma_data_end_bounds(s: Seq<u8>, at: int)
    requires
        0 <= at <= s.len(),
    ensures
        at <= data_end(s, at) <= s.len(),
        at < s.len() && s[at] != IAC ==> at < data_end(s, at),
        data_end(s, at) < s.len() ==> s[data_end(s, at)] == IAC,
        forall|i: int| at <= i < data_end(s, at) ==> s[i] != IAC,
    decreases s.len() - at,
{
    if at < s.len() && s[at] != IAC {
        lemma_data_end_bounds(s, at + 1);
    }
}

/// A body that is found ends after its start and within the bytes.
pub proof fn lemma_body_bounds(s: Seq<u8>, at: int)
    requires
        0 <= at,
    ensures
        body(s, at) is Some ==> at + 2 <= body(s, at)->0.end <= s.len(),
    decreases s.len() - at,
{
    if at < s.len() {
        if s[at] != IAC {
            lemma_body_bounds(s, at + 1);
        } else if at + 1 < s.len() && s[at + 1] != SE {
            lemma_body_bounds(s, at + 2);
        }
    }
}

/// A complete unit is not empty and ends within the bytes.
pub proof fn lemma_unit_bounds(s: Seq<u8>, at: int)
    requires
        0 <= at,
    ensures
        unit_at(s, at) is Complete ==> at < unit_at(s, at)->end <= s.len(),
{
    if at < s.len() {
        lemma_data_end_bounds(s, at);
        lemma_body_bounds(s, at + 3);
    }
}

/// Decoding stops within the bytes, and where it stops no complete unit starts.
pub proof fn lemma_decoded_bounds(s: Seq<u8>, at: int)
    requires
        0 <= at <= s.len(),
    ensures
        at <= decoded_from(s, at).end <= s.len(),
        unit_at(s, decoded_from(s, at).end) is Incomplete,
    decreases s.len() - at,
{
    lemma_unit_bounds(s, at);
    if let Unit::Complete { frame, end } = unit_at(s, at) {
        lemma_decoded_bounds(s, end);
    }
}

/// Scans the run of data bytes that starts at `at`.
fn scan_data(buffer: &[u8], at: usize) -> (end: usize)
    requires
        at <= buffer.len(),
    ensures
        end == data_end(buffer@, at as int),
        at <= end <= buffer.len(),
{
    let mut end: usize = at;
    while end < buffer.len() && buffer[end] != IAC
        invariant
            at <= end <= buffer.len(),
            data_end(buffer@, at as int) == data_end(buffer@, end as int),
        decreases buffer.len() - end,
    {
        end += 1;
    }
    end
}

/// The bytes of `buffer` from `from` up to `to`.
fn copy_range(buffer: &[u8], from: usize, to: usize) -> (bytes: Vec<u8>)
    requires
        from <= to <= buffer.len(),
    ensures
        bytes@ == buffer@.subrange(from as int, to as int),
{
    let mut bytes: Vec<u8> = Vec::new();
    let mut i: usize = from;
    while i < to
        invariant
            from <= i <= to <= buffer.len(),
            bytes@ == buffer@.subrange(from as int, i as int),
        decreases to - i,
    {
        bytes.push(buffer[i]);
        i += 1;
    }
    bytes
}

/// Scans the body of a subnegotiation that starts at `start`.
fn scan_body(buffer: &[u8], start: usize) -> (found: Option<(Vec<u8>, usize)>)
    requires
        start <= buffer.len(),
    ensures
        match found {
            Some((payload, end)) => body(buffer@, start as int) == Some(
                Body { payload: payload@, end: end as int },
            ) && start < end <= buffer.len(),
            None => body(buffer@, start as int) is None,
        },
{
    let mut payload: Vec<u8> = Vec::new();
    let mut at: usize = start;
    while at < buffer.len()
        invariant
            start <= at <= buffer.len(),
            body(buffer@, start as int) == prefixed(payload@, body(buffer@, at as int)),
        decreases buffer.len() - at,
    {
        let ghost before = payload@;
        let byte = buffer[at];
        if byte != IAC {
            payload.push(byte);
            proof {
                let rest = body(buffer@, at + 1)->0.payload;
                assert(before + (seq![byte] + rest) =~= payload@ + rest);
            }
            at += 1;
        } else if at + 1 >= buffer.len() {
            return None;
        } else {
            let next = buffer[at + 1];
            if next == SE {
                proof {
                    assert(before + Seq::<u8>::empty() =~= before);
                }
                return Some((payload, at + 2));
            }
            payload.push(IAC);
            if next != IAC {
                payload.push(next);
            }
            proof {
                let rest = body(buffer@, at + 2)->0.payload;
                if next == IAC {
                    assert(before + (seq![IAC] + rest) =~= payload@ + rest);
                } else {
                    assert(before + (seq![IAC, next] + rest) =~= payload@ + rest);
                }
            }
            at += 2;
        }
    }
    None
}

/// Decodes the unit that starts at `at`: `None` where the bytes end before
/// it does, else its event, if it carries one, and the position after it.
fn next_unit(buffer: &[u8], at: usize) -> (unit: Option<(Option<ProtocolEvent>, usize)>)
    requires
        at <= buffer.len(),
    ensures
        match unit {
            Some((event, end)) => {
                &&& at < end <= buffer.len()
                &&& unit_at(buffer@, at as int) == (Unit::Complete {
                    frame: match event {
                        Some(event) => Some(event@),
                        None => None,
                    },
                    end: end as int,
                })
            },
            None => unit_at(buffer@, at as int) is Incomplete,
        },
{
    let len = buffer.len();
    if at >= len {
        return None;
    }
    if buffer[at] != IAC {
        let end = scan_data(buffer, at);
        proof {
            lemma_data_end_bounds(buffer@, at as int);
        }
        let bytes = copy_range(buffer, at, end);
        return Some((Some(ProtocolEvent::RawInput { bytes }), end));
    }
    if len - at < 2 {
        return None;
    }
    let command = buffer[at + 1];
    if let Some(direction) = Direction::from_byte(command) {
        if len - at < 3 {
            return None;
        }
        return Some((Some(ProtocolEvent::Negotiate { direction, option: buffer[at + 2] }), at + 3));
    }
    if command == SB {
        if len - at < 3 {
            return None;
        }
        let option = buffer[at + 2];
        return match scan_body(buffer, at + 3) {
            Some((payload, end)) => {
                let event = if option == OPTION_WINDOW_SIZE && payload.len() == 4 {
                    ProtocolEvent::Resize {
                        width: payload[0] as u16 * 256 + payload[1] as u16,
                        height: payload[2] as u16 * 256 + payload[3] as u16,
                    }
                } else {
                    ProtocolEvent::Subnegotiation { option, payload }
                };
                Some((Some(event), end))
            },
            None => None,
        };
    }
    if command == IAC {
        let mut bytes: Vec<u8> = Vec::new();
        bytes.push(IAC);
        assert(bytes@ =~= seq![IAC]);
        return Some((Some(ProtocolEvent::RawInput { bytes }), at + 2));
    }
    Some((None, at + 2))
}

/// Decodes every complete unit of `buffer`, in order, and says how many bytes
/// they take up. What follows them is the start of a unit that the buffer
/// does not hold whole: the caller keeps it and decodes again when more bytes
/// have come. Nothing is ever emitted for a unit that is cut short.
pub fn decode(buffer: &[u8]) -> (out: (Vec<ProtocolEvent>, usize))
    ensures
        frames(out.0@) == decoded(buffer@).frames,
        out.1 == decoded(buffer@).end,
        out.1 <= buffer.len(),
        unit_at(buffer@, out.1 as int) is Incomplete,
{
    let mut events: Vec<ProtocolEvent> = Vec::new();
    let mut at: usize = 0;
    assert(frames(events@) =~= Seq::<Frame>::empty());
    loop
        invariant
            at <= buffer.len(),
            decoded(buffer@).frames == frames(events@) + decoded_from(buffer@, at as int).frames,
            decoded(buffer@).end == decoded_from(buffer@, at as int).end,
        ensures
            unit_at(buffer@, at as int) is Incomplete,
        decreases buffer.len() - at,
    {
        match next_unit(buffer, at) {
            Some((event, end)) => {
                let ghost before = frames(events@);
                let ghost rest = decoded_from(buffer@, end as int).frames;
                match event {
                    Some(event) => {
                        events.push(event);
                        proof {
                            assert(frames(events@) =~= before.push(event@));
                            assert(before + (seq![event@] + rest) =~= frames(events@) + rest);
                        }
                    },
                    None => {
                        proof {
                            assert(before + (Seq::<Frame>::empty() + rest) =~= before + rest);
                        }
                    },
                }
                at = end;
            },
            None => {
                break ;
            },
        }
    }
    proof {
        assert(frames(events@) + Seq::<Frame>::empty() =~= frames(events@));
    }
    (events, at)
}

/// What one outbound command says, with its bytes as a sequence.
pub enum Command {
    Negotiate { direction: Direction, option: u8 },
    Subnegotiation { option: u8, payload: Seq<u8> },
    EnableMouse,
    Raw { bytes: Seq<u8> },
}

/// A command for the peer: the write direction's counterpart of an event.
#[derive(Debug, Clone, PartialEq, Eq)]
pub enum OutboundCommand {
    /// A negotiation command about one option.
    Negotiate { direction: Direction, option: u8 },
    /// A subnegotiation with its payload.
    Subnegotiation { option: u8, payload: Vec<u8> },
    /// Asks the peer's terminal to report mouse buttons with extended
    /// coordinates.
    EnableMouse,
    /// Bytes for the peer's terminal: text and drawing.
    Raw { bytes: Vec<u8> },
}

impl View for OutboundCommand {
    type V = Command;

    open spec fn view(&self) -> Command {
        match *self {
            OutboundCommand::Negotiate { direction, option } => Command::Negotiate { direction, option },
            OutboundCommand::Subnegotiation { option, payload } => Command::Subnegotiation {
                option,
                payload: payload@,
            },
            OutboundCommand::EnableMouse => Command::EnableMouse,
            OutboundCommand::Raw { bytes } => Command::Raw { bytes: bytes@ },
        }
    }
}

/// The commands of a list, as what they say.
pub open spec fn commands(list: Seq<OutboundCommand>) -> Seq<Command> {
    list.map_values(|command: OutboundCommand| command@)
}

/// How one data byte travels: `IAC` doubled, any other byte as it is.
pub open spec fn escaped_byte(byte: u8) -> Seq<u8> {
    if byte == IAC {
        seq![IAC, IAC]
    } else {
        seq![byte]
    }
}

/// The bytes from `at` on with every `IAC` doubled.
pub open spec fn escaped_from(bytes: Seq<u8>, at: int) -> Seq<u8>
    decreases bytes.len() - at,
{
    if at < 0 || at >= bytes.len() {
        Seq::empty()
    } else {
        escaped_byte(bytes[at]) + escaped_from(bytes, at + 1)
    }
}

/// The bytes with every `IAC` doubled.
pub open spec fn escaped(bytes: Seq<u8>) -> Seq<u8> {
    escaped_from(bytes, 0)
}

/// The escape sequence that sets the private terminal mode spelled by four
/// digits: `ESC [ ?`, the digits, `h`.
pub open spec fn mode_on(a: u8, b: u8, c: u8, d: u8) -> Seq<u8> {
    seq![0x1bu8, 0x5bu8, 0x3fu8, a, b, c, d, 0x68u8]
}

/// What turns mouse reporting on: button events (mode 1000), motion while a
/// button is held (1002), and the two extended coordinate formats (1015 and
/// 1006).
pub open spec fn mouse_on() -> Seq<u8> {
    mode_on(0x31, 0x30, 0x30, 0x30) + mode_on(0x31, 0x30, 0x30, 0x32) + mode_on(0x31, 0x30, 0x31, 0x35)
        + mode_on(0x31, 0x30, 0x30, 0x36)
}

/// The bytes of a negotiation command.
pub open spec fn negotiation_wire(direction: Direction, option: u8) -> Seq<u8> {
    seq![IAC, direction.code(), option]
}

/// The bytes of a subnegotiation.
pub open spec fn subnegotiation_wire(option: u8, payload: Seq<u8>) -> Seq<u8> {
    seq![IAC, SB, option] + escaped(payload) + seq![IAC, SE]
}

/// The bytes that a command travels as.
pub open spec fn wire(command: Command) -> Seq<u8> {
    match command {
        Command::Negotiate { direction, option } => negotiation_wire(direction, option),
        Command::Subnegotiation { option, payload } => subnegotiation_wire(option, payload),
        Command::EnableMouse => mouse_on(),
        Command::Raw { bytes } => escaped(bytes),
    }
}

/// The bytes of the commands from `at` on, one after the other.
pub open spec fn wire_from(list: Seq<Command>, at: int) -> Seq<u8>
    decreases list.len() - at,
{
    if at < 0 || at >= list.len() {
        Seq::empty()
    } else {
        wire(list[at]) + wire_from(list, at + 1)
    }
}

/// The bytes of a list of commands, one after the other.
pub open spec fn wire_all(list: Seq<Command>) -> Seq<u8> {
    wire_from(list, 0)
}

/// Appends `bytes` to `out` with every `IAC` doubled.
fn push_escaped(out: &mut Vec<u8>, bytes: &Vec<u8>)
    ensures
        final(out)@ == old(out)@ + escaped(bytes@),
{
    let mut at: usize = 0;
    assert(out@ + escaped_from(bytes@, 0) == old(out)@ + escaped(bytes@));
    while at < bytes.len()
        invariant
            at <= bytes.len(),
            out@ + escaped_from(bytes@, at as int) == old(out)@ + escaped(bytes@),
        decreases bytes.len() - at,
    {
        let ghost before = out@;
        let byte = bytes[at];
        out.push(byte);
        if byte == IAC {
            out.push(IAC);
        }
        proof {
            let rest = escaped_from(bytes@, at + 1);
            assert(before + (escaped_byte(byte) + rest) =~= out@ + rest);
        }
        at += 1;
    }
    assert(out@ + Seq::<u8>::empty() =~= out@);
}

/// Appends the sequence that sets one private terminal mode.
fn push_mode_on(out: &mut Vec<u8>, a: u8, b: u8, c: u8, d: u8)
    ensures
        final(out)@ == old(out)@ + mode_on(a, b, c, d),
{
    out.push(0x1b);
    out.push(0x5b);
    out.push(0x3f);
    out.push(a);
    out.push(b);
    out.push(c);
    out.push(d);
    out.push(0x68);
    assert(out@ =~= old(out)@ + mode_on(a, b, c, d));
}

/// Appends the bytes of one command.
fn push_command(out: &mut Vec<u8>, command: &OutboundCommand)
    ensures
        final(out)@ == old(out)@ + wire(command@),
{
    match command {
        OutboundCommand::Negotiate { direction, option } => {
            out.push(IAC);
            out.push(direction.to_byte());
            out.push(*option);
            assert(out@ =~= old(out)@ + wire(command@));
        },
        OutboundCommand::Subnegotiation { option, payload } => {
            out.push(IAC);
            out.push(SB);
            out.push(*option);
            push_escaped(out, payload);
            out.push(IAC);
            out.push(SE);
            assert(out@ =~= old(out)@ + wire(command@));
        },
        OutboundCommand::EnableMouse => {
            push_mode_on(out, 0x31, 0x30, 0x30, 0x30);
            push_mode_on(out, 0x31, 0x30, 0x30, 0x32);
            push_mode_on(out, 0x31, 0x30, 0x31, 0x35);
            push_mode_on(out, 0x31, 0x30, 0x30, 0x36);
            assert(out@ =~= old(out)@ + wire(command@));
        },
        OutboundCommand::Raw { bytes } => {
            push_escaped(out, bytes);
        },
    }
}

/// The bytes that a command travels as.
pub fn encode(command: &OutboundCommand) -> (bytes: Vec<u8>)
    ensures
        bytes@ == wire(command@),
{
    let mut bytes: Vec<u8> = Vec::new();
    push_command(&mut bytes, command);
    assert(Seq::<u8>::empty() + wire(command@) =~= wire(command@));
    bytes
}

/// The bytes of a list of commands, in the order of the list.
pub fn encode_all(list: &Vec<OutboundCommand>) -> (bytes: Vec<u8>)
    ensures
        bytes@ == wire_all(commands(list@)),
{
    let mut bytes: Vec<u8> = Vec::new();
    let mut at: usize = 0;
    assert(bytes@ + wire_from(commands(list@), 0) =~= wire_all(commands(list@)));
    while at < list.len()
        invariant
            at <= list.len(),
            bytes@ + wire_from(commands(list@), at as int) == wire_all(commands(list@)),
        decreases list.len() - at,
    {
        let ghost before = bytes@;
        push_command(&mut bytes, &list[at]);
        proof {
            let rest = wire_from(commands(list@), at + 1);
            assert(commands(list@)[at as int] == list[at as int]@);
            assert(before + (wire(list[at as int]@) + rest) =~= bytes@ + rest);
        }
        at += 1;
    }
    assert(bytes@ + Seq::<u8>::empty() =~= bytes@);
    bytes
}

} // verus!
