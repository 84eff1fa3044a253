//! Decoding across reads.
//!
//! A connection hands its bytes over in pieces of any size. The decoder keeps
//! nothing but the bytes that the last decoding left over, and the laws of
//! this module say that the pieces' boundaries do not show in what a stream
//! of control sequences decodes to.

use crate::codec::{
    body, data_end, decode, decoded, decoded_from, emitted, escaped_byte, escaped_from, frames,
    lemma_data_end_bounds, lemma_decoded_bounds, lemma_unit_bounds, negotiation_wire, subnegotiation_frame,
    subnegotiation_wire, unit_at, Body, Decoding, Direction, Frame, ProtocolEvent, Unit, IAC, SB, SE,
};
use vstd::prelude::*;

verus! {

/// Whether no frame is a run of data: the stream held control sequences only.
pub open spec fn control_only(frames: Seq<Frame>) -> bool {
    forall|i: int| 0 <= i < frames.len() ==> !(#[trigger] frames[i] is RawInput)
}

/// What a stream says, piece by piece: a control frame, or one byte of data.
pub enum Atom {
    Control(Frame),
    Data(u8),
}

/// The pieces of one frame: its bytes one by one for a run of data, the
/// frame itself for any other.
pub open spec fn atoms_of(frame: Frame) -> Seq<Atom> {
    match frame {
        Frame::RawInput { bytes } => bytes.map_values(|byte: u8| Atom::Data(byte)),
        _ => seq![Atom::Control(frame)],
    }
}

/// The pieces of a list of frames, in order. Two lists have the same pieces
/// exactly when they differ only in where their runs of data are cut.
pub open spec fn atoms(frames: Seq<Frame>) -> Seq<Atom>
    decreases frames.len(),
{
    if frames.len() == 0 {
        Seq::empty()
    } else {
        atoms_of(frames[0]) + atoms(frames.drop_first())
    }
}

/// A body that was found, seen from `by` bytes further on.
pub open spec fn body_moved(found: Option<Body>, by: int) -> Option<Body> {
    match found {
        Some(found) => Some(Body { payload: found.payload, end: found.end - by }),
        None => None,
    }
}

/// A unit, seen from `by` bytes further on.
pub open spec fn unit_moved(unit: Unit, by: int) -> Unit {
    match unit {
        Unit::Complete { frame, end } => Unit::Complete { frame, end: end - by },
        Unit::Incomplete => Unit::Incomplete,
    }
}

/// Whether `sequence` is exactly one control sequence that carries `frame`.
pub open spec fn carries(sequence: Seq<u8>, frame: Frame) -> bool {
    &&& sequence.len() > 0
    &&& sequence[0] == IAC
    &&& !(frame is RawInput)
    &&& unit_at(sequence, 0) == (Unit::Complete { frame: Some(frame), end: sequence.len() as int })
}

/// The pieces of a stream put together.
pub open spec fn joined(chunks: Seq<Seq<u8>>) -> Seq<u8>
    decreases chunks.len(),
{
    if chunks.len() == 0 {
        Seq::empty()
    } else {
        chunks[0] + joined(chunks.drop_first())
    }
}

/// What a decoder has given out after a number of reads, and what it holds
/// back.
pub struct Fed {
    pub frames: Seq<Frame>,
    pub pending: Seq<u8>,
}

/// Feeding the pieces one by one to a decoder that holds `pending`.
pub open spec fn fed(pending: Seq<u8>, chunks: Seq<Seq<u8>>) -> Fed
    decreases chunks.len(),
{
    if chunks.len() == 0 {
        Fed { frames: Seq::empty(), pending }
    } else {
        let input = pending + chunks[0];
        let rest = fed(input.skip(decoded(input).end), chunks.drop_first());
        Fed { frames: decoded(input).frames + rest.frames, pending: rest.pending }
    }
}

/// A body that is found stays the same when more bytes follow.
pub proof fn lemma_body_extends(s: Seq<u8>, t: Seq<u8>, at: int)
    requires
        0 <= at,
        body(s, at) is Some,
    ensures
        body(s + t, at) == body(s, at),
    decreases s.len() - at,
{
    if s[at] != IAC {
        lemma_body_extends(s, t, at + 1);
    } else if s[at + 1] != SE {
        lemma_body_extends(s, t, at + 2);
    }
}

/// A complete control sequence stays the same when more bytes follow.
pub proof fn lemma_unit_extends(s: Seq<u8>, t: Seq<u8>, at: int)
    requires
        0 <= at < s.len(),
        s[at] == IAC,
        unit_at(s, at) is Complete,
    ensures
        unit_at(s + t, at) == unit_at(s, at),
{
    if Direction::of_code(s[at + 1]) is None && s[at + 1] == SB {
        lemma_body_extends(s, t, at + 3);
    }
}

/// Where a run of data ends, seen from `by` bytes further on.
pub proof fn lemma_data_end_moves(s: Seq<u8>, by: int, at: int)
    requires
        0 <= by <= s.len(),
        0 <= at,
    ensures
        data_end(s.skip(by), at) == data_end(s, at + by) - by,
    decreases s.len() - by - at,
{
    if at + by < s.len() && s[at + by] != IAC {
        lemma_data_end_moves(s, by, at + 1);
    }
}

/// A body, seen from `by` bytes further on.
pub proof fn lemma_body_moves(s: Seq<u8>, by: int, at: int)
    requires
        0 <= by <= s.len(),
        0 <= at,
    ensures
        body(s.skip(by), at) == body_moved(body(s, at + by), by),
    decreases s.len() - by - at,
{
    if at + by < s.len() {
        if s[at + by] != IAC {
            lemma_body_moves(s, by, at + 1);
        } else if at + by + 1 < s.len() && s[at + by + 1] != SE {
            lemma_body_moves(s, by, at + 2);
        }
    }
}

/// A unit, seen from `by` bytes further on.
pub proof fn lemma_unit_moves(s: Seq<u8>, by: int, at: int)
    requires
        0 <= by <= s.len(),
        0 <= at,
    ensures
        unit_at(s.skip(by), at) == unit_moved(unit_at(s, at + by), by),
{
    if at + by < s.len() {
        if s[at + by] != IAC {
            lemma_data_end_moves(s, by, at);
            lemma_data_end_bounds(s, at + by);
            assert(s.skip(by).subrange(at, data_end(s, at + by) - by) =~= s.subrange(
                at + by,
                data_end(s, at + by),
            ));
        } else if at + by + 2 < s.len() {
            lemma_body_moves(s, by, at + 3);
        }
    }
}

/// A decoding, seen from `by` bytes further on.
pub proof fn lemma_decoded_moves(s: Seq<u8>, by: int, at: int)
    requires
        0 <= by <= s.len(),
        0 <= at,
    ensures
        decoded_from(s.skip(by), at) == (Decoding {
            frames: decoded_from(s, at + by).frames,
            end: decoded_from(s, at + by).end - by,
        }),
    decreases s.len() - by - at,
{
    lemma_unit_moves(s, by, at);
    lemma_unit_bounds(s, at + by);
    if let Unit::Complete { frame, end } = unit_at(s, at + by) {
        lemma_decoded_moves(s, by, end - by);
    }
}

/// The units that `s` holds whole decode in `s + t` as they do in `s`, and
/// decoding `s + t` goes on from where decoding `s` stopped.
pub proof fn lemma_decoded_extends(s: Seq<u8>, t: Seq<u8>, at: int)
    requires
        0 <= at <= s.len(),
        control_only(decoded_from(s + t, at).frames),
    ensures
        decoded_from(s + t, at).frames == decoded_from(s, at).frames + decoded_from(
            s + t,
            decoded_from(s, at).end,
        ).frames,
        decoded_from(s + t, at).end == decoded_from(s + t, decoded_from(s, at).end).end,
    decreases s.len() - at,
{
    let whole = decoded_from(s + t, at);
    lemma_unit_bounds(s, at);
    lemma_unit_bounds(s + t, at);
    match unit_at(s, at) {
        Unit::Complete { frame, end } => {
            if s[at] != IAC {
                assert(whole.frames[0] is RawInput);
            } else {
                lemma_unit_extends(s, t, at);
                let later = decoded_from(s + t, end).frames;
                assert(whole.frames == emitted(frame) + later);
                assert forall|i: int| 0 <= i < later.len() implies !(#[trigger] later[i] is RawInput) by {
                    assert(later[i] == whole.frames[i + emitted(frame).len()]);
                }
                lemma_decoded_extends(s, t, end);
                let head = decoded_from(s, end);
                assert(emitted(frame) + (head.frames + decoded_from(s + t, head.end).frames) =~= (emitted(
                    frame,
                ) + head.frames) + decoded_from(s + t, head.end).frames);
            }
        },
        Unit::Incomplete => {
            assert(Seq::<Frame>::empty() + whole.frames =~= whole.frames);
        },
    }
}

/// The pieces of two lists put together are the pieces of the first, then
/// those of the second.
pub proof fn lemma_atoms_of_both(first: Seq<Frame>, second: Seq<Frame>)
    ensures
        atoms(first + second) == atoms(first) + atoms(second),
    decreases first.len(),
{
    if first.len() == 0 {
        assert(first + second =~= second);
        assert(atoms(first) + atoms(second) =~= atoms(second));
    } else {
        lemma_atoms_of_both(first.drop_first(), second);
        assert((first + second).drop_first() =~= first.drop_first() + second);
        assert(atoms(first + second) =~= atoms(first) + atoms(second));
    }
}

/// The pieces of a list of one frame or none.
pub proof fn lemma_atoms_of_emitted(frame: Option<Frame>)
    ensures
        atoms(emitted(frame)) == match frame {
            Some(frame) => atoms_of(frame),
            None => Seq::empty(),
        },
{
    if let Some(frame) = frame {
        assert(emitted(Some(frame)).drop_first() =~= Seq::<Frame>::empty());
        assert(atoms_of(frame) + atoms(Seq::<Frame>::empty()) =~= atoms_of(frame));
    }
}

/// A run of data ends where every run that starts within it ends.
pub proof fn lemma_data_end_within(s: Seq<u8>, at: int, within: int)
    requires
        0 <= at <= within <= data_end(s, at),
    ensures
        data_end(s, within) == data_end(s, at),
    decreases within - at,
{
    if at < within {
        lemma_data_end_within(s, at + 1, within);
    }
}

/// A run of data that ends before the bytes do stays the same when more bytes
/// follow; one that ends with the bytes can only grow.
pub proof fn lemma_data_end_extends(s: Seq<u8>, t: Seq<u8>, at: int)
    requires
        0 <= at <= s.len(),
    ensures
        data_end(s, at) < s.len() ==> data_end(s + t, at) == data_end(s, at),
        data_end(s, at) <= data_end(s + t, at),
    decreases s.len() - at,
{
    if at < s.len() && s[at] != IAC {
        lemma_data_end_extends(s, t, at + 1);
    } else if at == s.len() {
        lemma_data_end_bounds(s + t, at);
    }
}

/// Whatever a stream holds, the units that `s` holds whole give in `s + t`
/// the pieces that they give in `s`, and decoding `s + t` goes on from where
/// decoding `s` stopped: a run of data that reaches the end of `s` may go on
/// in `t`, and is then one run in place of two.
pub proof fn lemma_decoded_extends_in_pieces(s: Seq<u8>, t: Seq<u8>, at: int)
    requires
        0 <= at <= s.len(),
    ensures
        atoms(decoded_from(s + t, at).frames) == atoms(decoded_from(s, at).frames) + atoms(
            decoded_from(s + t, decoded_from(s, at).end).frames,
        ),
        decoded_from(s + t, at).end == decoded_from(s + t, decoded_from(s, at).end).end,
    decreases s.len() - at,
{
    let u = s + t;
    let whole = decoded_from(u, at);
    let head = decoded_from(s, at);
    lemma_unit_bounds(s, at);
    lemma_unit_bounds(u, at);
    match unit_at(s, at) {
        Unit::Complete { frame, end } => {
            if s[at] == IAC || end < s.len() {
                if s[at] == IAC {
                    lemma_unit_extends(s, t, at);
                } else {
                    lemma_data_end_extends(s, t, at);
                    assert(u.subrange(at, end) =~= s.subrange(at, end));
                }
                assert(unit_at(u, at) == unit_at(s, at));
                lemma_decoded_extends_in_pieces(s, t, end);
                let later = decoded_from(s, end);
                lemma_atoms_of_both(emitted(frame), decoded_from(u, end).frames);
                lemma_atoms_of_both(emitted(frame), later.frames);
                assert(atoms(whole.frames) =~= atoms(head.frames) + atoms(
                    decoded_from(u, head.end).frames,
                ));
            } else {
                let len = s.len() as int;
                let far = data_end(u, at);
                lemma_data_end_extends(s, t, at);
                lemma_data_end_bounds(u, at);
                assert(decoded_from(s, len) == (Decoding { frames: Seq::empty(), end: len }));
                assert(head.end == len);
                assert(head.frames =~= seq![Frame::RawInput { bytes: s.subrange(at, len) }]);
                let rest = decoded_from(u, far).frames;
                let run = Frame::RawInput { bytes: u.subrange(at, far) };
                assert(whole.frames == seq![run] + rest);
                lemma_atoms_of_both(seq![run], rest);
                lemma_atoms_of_emitted(Some(run));
                lemma_atoms_of_emitted(Some(Frame::RawInput { bytes: s.subrange(at, len) }));
                if far == len {
                    assert(u.subrange(at, far) =~= s.subrange(at, len));
                } else {
                    lemma_data_end_within(u, at, len);
                    lemma_unit_bounds(u, len);
                    let second = Frame::RawInput { bytes: u.subrange(len, far) };
                    assert(decoded_from(u, len).frames == seq![second] + rest);
                    lemma_atoms_of_both(seq![second], rest);
                    lemma_atoms_of_emitted(Some(second));
                    assert(atoms_of(run) =~= atoms_of(Frame::RawInput { bytes: s.subrange(at, len) })
                        + atoms_of(second));
                    assert(atoms(whole.frames) =~= atoms(head.frames) + atoms(decoded_from(u, len).frames));
                }
            }
        },
        Unit::Incomplete => {
            assert(atoms(head.frames) + atoms(whole.frames) =~= atoms(whole.frames));
        },
    }
}

/// Two reads give the pieces that one read of both gives, whatever the
/// stream holds. Where a stream is cut in two at any place, decoding the
/// first part, carrying what it left undecoded over to the front of the
/// second part, and decoding that, gives every control frame and every byte
/// of data of the whole stream, in their order, takes up the same bytes, and
/// leaves the same bytes undecoded.
pub proof fn lemma_decode_resumes_in_pieces(first: Seq<u8>, second: Seq<u8>)
    ensures
        ({
            let head = decoded(first);
            let carried = first.skip(head.end);
            let tail = decoded(carried + second);
            let whole = decoded(first + second);
            &&& 0 <= head.end <= first.len()
            &&& atoms(whole.frames) == atoms(head.frames + tail.frames)
            &&& whole.end == head.end + tail.end
            &&& (first + second).skip(whole.end) == (carried + second).skip(tail.end)
        }),
{
    let head = decoded(first);
    let carried = first.skip(head.end);
    let tail = decoded(carried + second);
    let whole = decoded(first + second);
    lemma_decoded_bounds(first, 0);
    lemma_decoded_extends_in_pieces(first, second, 0);
    lemma_decoded_moves(first + second, head.end, 0);
    assert((first + second).skip(head.end) =~= carried + second);
    lemma_decoded_bounds(carried + second, 0);
    assert((first + second).skip(whole.end) =~= (carried + second).skip(tail.end));
    lemma_atoms_of_both(head.frames, tail.frames);
}

/// However a stream is split into reads, and whatever it holds, feeding the
/// reads one by one to a decoder gives every control frame and every byte of
/// data that decoding the whole stream at once gives, in the same order, and
/// holds back the same bytes.
pub proof fn lemma_reads_keep_every_piece(pending: Seq<u8>, chunks: Seq<Seq<u8>>)
    requires
        unit_at(pending, 0) is Incomplete,
    ensures
        atoms(fed(pending, chunks).frames) == atoms(decoded(pending + joined(chunks)).frames),
        fed(pending, chunks).pending == (pending + joined(chunks)).skip(
            decoded(pending + joined(chunks)).end,
        ),
    decreases chunks.len(),
{
    let stream = pending + joined(chunks);
    if chunks.len() == 0 {
        assert(stream =~= pending);
        assert(pending.skip(0) =~= pending);
    } else {
        let input = pending + chunks[0];
        let later = joined(chunks.drop_first());
        assert(stream =~= input + later);
        lemma_decode_resumes_in_pieces(input, later);
        lemma_leftover_is_incomplete(input);
        let carried = input.skip(decoded(input).end);
        lemma_reads_keep_every_piece(carried, chunks.drop_first());
        lemma_atoms_of_both(decoded(input).frames, fed(carried, chunks.drop_first()).frames);
        lemma_atoms_of_both(decoded(input).frames, decoded(carried + later).frames);
    }
}

/// Two reads decode to what one read of both decodes to. Where a stream of
/// control sequences is cut in two at any place, decoding the first part,
/// carrying what it left undecoded over to the front of the second part, and
/// decoding that, gives the frames of the whole stream in their order, takes
/// up the same bytes, and leaves the same bytes undecoded.
pub proof fn lemma_decode_resumes(first: Seq<u8>, second: Seq<u8>)
    requires
        control_only(decoded(first + second).frames),
    ensures
        ({
            let head = decoded(first);
            let carried = first.skip(head.end);
            let tail = decoded(carried + second);
            let whole = decoded(first + second);
            &&& 0 <= head.end <= first.len()
            &&& whole.frames == head.frames + tail.frames
            &&& whole.end == head.end + tail.end
            &&& (first + second).skip(whole.end) == (carried + second).skip(tail.end)
            &&& control_only(tail.frames)
        }),
{
    let head = decoded(first);
    let carried = first.skip(head.end);
    let tail = decoded(carried + second);
    let whole = decoded(first + second);
    lemma_decoded_bounds(first, 0);
    lemma_decoded_extends(first, second, 0);
    lemma_decoded_moves(first + second, head.end, 0);
    assert((first + second).skip(head.end) =~= carried + second);
    lemma_decoded_bounds(carried + second, 0);
    assert((first + second).skip(whole.end) =~= (carried + second).skip(tail.end));
    assert forall|i: int| 0 <= i < tail.frames.len() implies !(#[trigger] tail.frames[i] is RawInput) by {
        assert(tail.frames[i] == whole.frames[i + head.frames.len()]);
    }
}

/// What a decoder leaves undecoded is the start of a unit that is not whole yet.
pub proof fn lemma_leftover_is_incomplete(input: Seq<u8>)
    ensures
        0 <= decoded(input).end <= input.len(),
        unit_at(input.skip(decoded(input).end), 0) is Incomplete,
        decoded(input.skip(decoded(input).end)) == (Decoding { frames: Seq::empty(), end: 0 }),
{
    lemma_decoded_bounds(input, 0);
    lemma_unit_moves(input, decoded(input).end, 0);
}

/// However a stream of control sequences is split into reads, feeding the
/// reads one by one to a decoder gives the frames that decoding the whole
/// stream at once gives, in the same order, and holds back the same bytes.
pub proof fn lemma_reads_do_not_show(pending: Seq<u8>, chunks: Seq<Seq<u8>>)
    requires
        unit_at(pending, 0) is Incomplete,
        control_only(decoded(pending + joined(chunks)).frames),
    ensures
        fed(pending, chunks).frames == decoded(pending + joined(chunks)).frames,
        fed(pending, chunks).pending == (pending + joined(chunks)).skip(
            decoded(pending + joined(chunks)).end,
        ),
    decreases chunks.len(),
{
    let stream = pending + joined(chunks);
    if chunks.len() == 0 {
        assert(stream =~= pending);
        assert(pending.skip(0) =~= pending);
    } else {
        let input = pending + chunks[0];
        let later = joined(chunks.drop_first());
        assert(stream =~= input + later);
        lemma_decode_resumes(input, later);
        lemma_leftover_is_incomplete(input);
        let carried = input.skip(decoded(input).end);
        lemma_reads_do_not_show(carried, chunks.drop_first());
    }
}

/// A fresh decoder, fed a stream of control sequences in reads of any sizes,
/// gives what decoding the stream in one piece gives.
pub proof fn lemma_incremental_equals_whole(chunks: Seq<Seq<u8>>)
    requires
        control_only(decoded(joined(chunks)).frames),
    ensures
        fed(Seq::empty(), chunks).frames == decoded(joined(chunks)).frames,
        fed(Seq::empty(), chunks).pending == joined(chunks).skip(decoded(joined(chunks)).end),
{
    assert(Seq::<u8>::empty() + joined(chunks) =~= joined(chunks));
    lemma_reads_do_not_show(Seq::empty(), chunks);
}

/// A control sequence that is cut short decodes to nothing, and none of its
/// bytes is taken up.
pub proof fn lemma_cut_short_is_silent(sequence: Seq<u8>, frame: Frame, cut: int)
    requires
        carries(sequence, frame),
        0 <= cut < sequence.len(),
    ensures
        unit_at(sequence.take(cut), 0) is Incomplete,
        decoded(sequence.take(cut)) == (Decoding { frames: Seq::empty(), end: 0 }),
{
    let start = sequence.take(cut);
    if unit_at(start, 0) is Complete {
        lemma_unit_bounds(start, 0);
        lemma_unit_extends(start, sequence.skip(cut), 0);
        assert(start + sequence.skip(cut) =~= sequence);
    }
}

/// A whole control sequence decodes to exactly one frame and is taken up whole.
pub proof fn lemma_whole_is_one_event(sequence: Seq<u8>, frame: Frame)
    requires
        carries(sequence, frame),
    ensures
        decoded(sequence) == (Decoding { frames: seq![frame], end: sequence.len() as int }),
{
    let end = sequence.len() as int;
    assert(decoded_from(sequence, end) == (Decoding { frames: Seq::empty(), end }));
    assert(decoded(sequence).frames =~= seq![frame]);
}

/// However many reads a control sequence comes in, nothing is given out while
/// it is not whole, and all that has come is held back.
pub proof fn lemma_partial_reads_are_silent(sequence: Seq<u8>, frame: Frame, chunks: Seq<Seq<u8>>)
    requires
        carries(sequence, frame),
        joined(chunks).len() < sequence.len(),
        joined(chunks) == sequence.take(joined(chunks).len() as int),
    ensures
        fed(Seq::empty(), chunks).frames == Seq::<Frame>::empty(),
        fed(Seq::empty(), chunks).pending == joined(chunks),
{
    lemma_cut_short_is_silent(sequence, frame, joined(chunks).len() as int);
    lemma_incremental_equals_whole(chunks);
    assert(joined(chunks).skip(0) =~= joined(chunks));
}

/// However many reads a control sequence comes in, once it is whole exactly
/// one frame has been given out, and nothing is held back.
pub proof fn lemma_completed_reads_give_one_event(sequence: Seq<u8>, frame: Frame, chunks: Seq<Seq<u8>>)
    requires
        carries(sequence, frame),
        joined(chunks) == sequence,
    ensures
        fed(Seq::empty(), chunks).frames == seq![frame],
        fed(Seq::empty(), chunks).pending == Seq::<u8>::empty(),
{
    lemma_whole_is_one_event(sequence, frame);
    lemma_incremental_equals_whole(chunks);
    assert(sequence.skip(sequence.len() as int) =~= Seq::<u8>::empty());
}

/// The bytes of a negotiation command are one control sequence, and it
/// carries that negotiation.
pub proof fn lemma_negotiation_decodes(direction: Direction, option: u8)
    ensures
        carries(negotiation_wire(direction, option), Frame::Negotiate { direction, option }),
{
}

/// A body as it is written, after any bytes `head`, is read back as the
/// payload it was written from.
pub proof fn lemma_body_decodes(head: Seq<u8>, payload: Seq<u8>, from: int)
    requires
        0 <= from <= payload.len(),
    ensures
        body(head + escaped_from(payload, from) + seq![IAC, SE], head.len() as int) == Some(
            Body {
                payload: payload.skip(from),
                end: (head + escaped_from(payload, from) + seq![IAC, SE]).len() as int,
            },
        ),
    decreases payload.len() - from,
{
    let s = head + escaped_from(payload, from) + seq![IAC, SE];
    let at = head.len() as int;
    if from == payload.len() {
        assert(payload.skip(from) =~= Seq::<u8>::empty());
    } else {
        let next = head + escaped_byte(payload[from]);
        lemma_body_decodes(next, payload, from + 1);
        assert(s =~= next + escaped_from(payload, from + 1) + seq![IAC, SE]);
        assert(seq![payload[from]] + payload.skip(from + 1) =~= payload.skip(from));
    }
}

/// The bytes of a subnegotiation are one control sequence, and it carries
/// what that subnegotiation decodes to.
pub proof fn lemma_subnegotiation_decodes(option: u8, payload: Seq<u8>)
    ensures
        carries(subnegotiation_wire(option, payload), subnegotiation_frame(option, payload)),
{
    let head = seq![IAC, SB, option];
    lemma_body_decodes(head, payload, 0);
    assert(payload.skip(0) =~= payload);
}

/// The decoder of one connection. It holds the bytes that have come and do
/// not make a whole unit yet, and nothing else.
pub struct Decoder {
    pending: Vec<u8>,
}

impl View for Decoder {
    type V = Seq<u8>;

    closed spec fn view(&self) -> Seq<u8> {
        self.pending@
    }
}

impl Decoder {
    /// A decoder that holds nothing.
    pub fn new() -> (decoder: Decoder)
        ensures
            decoder@ == Seq::<u8>::empty(),
    {
        Decoder { pending: Vec::new() }
    }

    /// The number of bytes held back.
    pub fn pending_len(&self) -> (len: usize)
        ensures
            len == self@.len(),
    {
        self.pending.len()
    }

    /// Takes the bytes of one read. What was held back and the new bytes are
    /// decoded together; the events of the units that are now whole come
    /// back, in order, and the rest is held back for the next read.
    pub fn feed(&mut self, chunk: &[u8]) -> (events: Vec<ProtocolEvent>)
        ensures
            frames(events@) == decoded(old(self)@ + chunk@).frames,
            final(self)@ == (old(self)@ + chunk@).skip(decoded(old(self)@ + chunk@).end),
            unit_at(final(self)@, 0) is Incomplete,
    {
        let mut i: usize = 0;
        while i < chunk.len()
            invariant
                i <= chunk.len(),
                self.pending@ == old(self).pending@ + chunk@.take(i as int),
            decreases chunk.len() - i,
        {
            self.pending.push(chunk[i]);
            assert(chunk@.take(i as int).push(chunk@[i as int]) =~= chunk@.take(i + 1));
            i += 1;
        }
        assert(chunk@.take(chunk.len() as int) =~= chunk@);
        let (events, consumed) = decode(self.pending.as_slice());
        let mut rest: Vec<u8> = Vec::new();
        let mut j: usize = consumed;
        while j < self.pending.len()
            invariant
                consumed <= j <= self.pending.len(),
                rest@ == self.pending@.subrange(consumed as int, j as int),
            decreases self.pending.len() - j,
        {
            rest.push(self.pending[j]);
            j += 1;
        }
        proof {
            assert(rest@ =~= self.pending@.skip(consumed as int));
            lemma_leftover_is_incomplete(self.pending@);
        }
        self.pending = rest;
        events
    }
}

} // verus!
