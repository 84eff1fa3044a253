//! What a session gets does not depend on how the bytes were read.
//!
//! The bytes of a connection come in reads of any sizes. A read may end
//! within a control sequence, within a run of data or within a mouse report.
//! The laws of this module say that none of this shows in the events that
//! the session gets: they are those of the whole stream, in their order.

use crate::bridge::{translated, translated_all, translated_from, Translation};
use crate::codec::{
    data_end, decoded, decoded_from, emitted, lemma_data_end_bounds, lemma_decoded_bounds,
    lemma_unit_bounds, unit_at, Decoding, Frame, Unit, IAC,
};
use crate::input::{lemma_parse_resumes, SessionEvent};
use crate::resume::{
    carries, joined, lemma_cut_short_is_silent, lemma_data_end_extends, lemma_data_end_within,
    lemma_decoded_moves, lemma_leftover_is_incomplete, lemma_unit_extends, lemma_whole_is_one_event,
};
use vstd::prelude::*;

verus! {

/// A translation carried on over more frames.
pub open spec fn then(first: Translation, frames: Seq<Frame>) -> Translation {
    let rest = translated_all(first.held, frames);
    Translation { events: first.events + rest.events, held: rest.held }
}

/// What the inbound side of a connection has given out after some reads, and
/// what it holds back: the bytes of a unit that is not whole, and the data
/// bytes of a mouse report that is not whole.
pub struct Received {
    pub events: Seq<SessionEvent>,
    pub pending: Seq<u8>,
    pub held: Seq<u8>,
}

/// Taking the reads one by one, as `receive` does, on an inbound side that
/// holds `pending` and `held`.
pub open spec fn received(pending: Seq<u8>, held: Seq<u8>, chunks: Seq<Seq<u8>>) -> Received
    decreases chunks.len(),
{
    if chunks.len() == 0 {
        Received { events: Seq::empty(), pending, held }
    } else {
        let input = pending + chunks[0];
        let got = translated_all(held, decoded(input).frames);
        let rest = received(input.skip(decoded(input).end), got.held, chunks.drop_first());
        Received { events: got.events + rest.events, pending: rest.pending, held: rest.held }
    }
}

/// The frames behind the first list are translated as they are by
/// themselves.
pub proof fn lemma_translated_behind(held: Seq<u8>, first: Seq<Frame>, second: Seq<Frame>, at: int)
    requires
        0 <= at,
    ensures
        translated_from(held, first + second, first.len() + at) == translated_from(held, second, at),
    decreases second.len() - at,
{
    if at < second.len() {
        let frame = second[at];
        assert((first + second)[first.len() + at] == frame);
        lemma_translated_behind(translated(held, frame).held, first, second, at + 1);
    }
}

/// Two lists of frames are translated one after the other.
pub proof fn lemma_translated_of_both(held: Seq<u8>, first: Seq<Frame>, second: Seq<Frame>, at: int)
    requires
        0 <= at <= first.len(),
    ensures
        translated_from(held, first + second, at) == then(translated_from(held, first, at), second),
    decreases first.len() - at,
{
    if at == first.len() {
        lemma_translated_behind(held, first, second, 0);
        let rest = translated_all(held, second);
        assert(Seq::<SessionEvent>::empty() + rest.events =~= rest.events);
    } else {
        let frame = first[at];
        assert((first + second)[at] == frame);
        let one = translated(held, frame);
        lemma_translated_of_both(one.held, first, second, at + 1);
        let inner = translated_from(one.held, first, at + 1);
        let rest = translated_all(inner.held, second);
        assert(one.events + (inner.events + rest.events) =~= (one.events + inner.events) + rest.events);
    }
}

/// The translation of one frame.
pub proof fn lemma_translated_of_one(held: Seq<u8>, frame: Frame)
    ensures
        translated_all(held, seq![frame]) == translated(held, frame),
        translated_all(held, Seq::<Frame>::empty()) == (Translation { events: Seq::empty(), held }),
{
    let one = translated(held, frame);
    assert(translated_from(one.held, seq![frame], 1) == (Translation { events: Seq::empty(), held: one.held }));
    assert(one.events + Seq::<SessionEvent>::empty() =~= one.events);
}

/// A run of data that is cut in two gives what it gives in one piece.
pub proof fn lemma_run_in_two(held: Seq<u8>, first: Seq<u8>, second: Seq<u8>)
    ensures
        translated(held, Frame::RawInput { bytes: first + second }) == then(
            translated(held, Frame::RawInput { bytes: first }),
            seq![Frame::RawInput { bytes: second }],
        ),
{
    lemma_parse_resumes(held + first, second);
    assert((held + first) + second =~= held + (first + second));
    let one = translated(held, Frame::RawInput { bytes: first });
    lemma_translated_of_one(one.held, Frame::RawInput { bytes: second });
}

/// The units that `s` holds whole are translated in `s + t` as they are in
/// `s`, and the translation of `s + t` goes on from where decoding `s`
/// stopped, with what the translation of `s` held back.
pub proof fn lemma_translation_extends(held: Seq<u8>, s: Seq<u8>, t: Seq<u8>, at: int)
    requires
        0 <= at <= s.len(),
    ensures
        translated_all(held, decoded_from(s + t, at).frames) == then(
            translated_all(held, decoded_from(s, at).frames),
            decoded_from(s + t, decoded_from(s, at).end).frames,
        ),
        decoded_from(s + t, at).end == decoded_from(s + t, decoded_from(s, at).end).end,
    decreases s.len() - at,
{
    let u = s + t;
    let whole = decoded_from(u, at);
    let head = decoded_from(s, at);
    lemma_unit_bounds(s, at);
    lemma_unit_bounds(u, at);
    match unit_at(s, at) {
        Unit::Complete { frame, end } => {
            if s[at] == IAC || end < s.len() {
                if s[at] == IAC {
                    lemma_unit_extends(s, t, at);
                } else {
                    lemma_data_end_extends(s, t, at);
                    assert(u.subrange(at, end) =~= s.subrange(at, end));
                }
                assert(unit_at(u, at) == unit_at(s, at));
                let first = translated_all(held, emitted(frame));
                lemma_translation_extends(first.held, s, t, end);
                let later = decoded_from(s, end);
                lemma_translated_of_both(held, emitted(frame), decoded_from(u, end).frames, 0);
                lemma_translated_of_both(held, emitted(frame), later.frames, 0);
                let inner = translated_all(first.held, later.frames);
                let rest = translated_all(inner.held, decoded_from(u, later.end).frames);
                assert(first.events + (inner.events + rest.events) =~= (first.events + inner.events)
                    + rest.events);
            } else {
                let len = s.len() as int;
                let far = data_end(u, at);
                lemma_data_end_extends(s, t, at);
                lemma_data_end_bounds(u, at);
                assert(decoded_from(s, len) == (Decoding { frames: Seq::empty(), end: len }));
                let short = Frame::RawInput { bytes: s.subrange(at, len) };
                assert(head.frames =~= seq![short]);
                let rest = decoded_from(u, far).frames;
                let run = Frame::RawInput { bytes: u.subrange(at, far) };
                assert(whole.frames == seq![run] + rest);
                lemma_translated_of_both(held, seq![run], rest, 0);
                lemma_translated_of_one(held, run);
                lemma_translated_of_one(held, short);
                if far == len {
                    assert(u.subrange(at, far) =~= s.subrange(at, len));
                } else {
                    lemma_data_end_within(u, at, len);
                    lemma_unit_bounds(u, len);
                    let second = Frame::RawInput { bytes: u.subrange(len, far) };
                    assert(decoded_from(u, len).frames == seq![second] + rest);
                    assert(u.subrange(at, far) =~= s.subrange(at, len) + u.subrange(len, far));
                    lemma_run_in_two(held, s.subrange(at, len), u.subrange(len, far));
                    let one = translated(held, short);
                    lemma_translated_of_both(one.held, seq![second], rest, 0);
                    lemma_translated_of_one(one.held, second);
                    let two = translated(one.held, second);
                    let last = translated_all(two.held, rest);
                    assert(one.events + (two.events + last.events) =~= (one.events + two.events)
                        + last.events);
                }
            }
        },
        Unit::Incomplete => {
            lemma_translated_of_one(held, Frame::RawInput { bytes: Seq::empty() });
            let rest = translated_all(held, whole.frames);
            assert(Seq::<SessionEvent>::empty() + rest.events =~= rest.events);
        },
    }
}

/// Two reads give the session what one read of both gives, whatever the
/// stream holds and wherever it is cut.
pub proof fn lemma_two_reads_give_the_same(held: Seq<u8>, first: Seq<u8>, second: Seq<u8>)
    ensures
        ({
            let head = decoded(first);
            let carried = first.skip(head.end);
            let tail = decoded(carried + second);
            let whole = decoded(first + second);
            &&& 0 <= head.end <= first.len()
            &&& translated_all(held, whole.frames) == then(translated_all(held, head.frames), tail.frames)
            &&& (first + second).skip(whole.end) == (carried + second).skip(tail.end)
        }),
{
    let head = decoded(first);
    let carried = first.skip(head.end);
    let tail = decoded(carried + second);
    let whole = decoded(first + second);
    lemma_decoded_bounds(first, 0);
    lemma_translation_extends(held, first, second, 0);
    lemma_decoded_moves(first + second, head.end, 0);
    assert((first + second).skip(head.end) =~= carried + second);
    lemma_decoded_bounds(carried + second, 0);
    assert((first + second).skip(whole.end) =~= (carried + second).skip(tail.end));
}

/// However a stream is split into reads, whatever it holds and wherever the
/// reads end, taking the reads one by one gives the session the events that
/// taking the whole stream at once gives, the same events in the same order,
/// and holds back the same bytes.
pub proof fn lemma_reads_do_not_show_in_events(pending: Seq<u8>, held: Seq<u8>, chunks: Seq<Seq<u8>>)
    requires
        unit_at(pending, 0) is Incomplete,
    ensures
        ({
            let stream = pending + joined(chunks);
            let whole = translated_all(held, decoded(stream).frames);
            &&& received(pending, held, chunks).events == whole.events
            &&& received(pending, held, chunks).held == whole.held
            &&& received(pending, held, chunks).pending == stream.skip(decoded(stream).end)
        }),
    decreases chunks.len(),
{
    let stream = pending + joined(chunks);
    if chunks.len() == 0 {
        assert(stream =~= pending);
        assert(pending.skip(0) =~= pending);
        lemma_translated_of_one(held, Frame::RawInput { bytes: Seq::empty() });
    } else {
        let input = pending + chunks[0];
        let later = joined(chunks.drop_first());
        assert(stream =~= input + later);
        lemma_two_reads_give_the_same(held, input, later);
        lemma_leftover_is_incomplete(input);
        let carried = input.skip(decoded(input).end);
        let got = translated_all(held, decoded(input).frames);
        lemma_reads_do_not_show_in_events(carried, got.held, chunks.drop_first());
    }
}

/// A new connection, read in pieces of any sizes, gives its session what the
/// whole stream read at once gives.
pub proof fn lemma_split_reads_equal_one_read(chunks: Seq<Seq<u8>>)
    ensures
        ({
            let stream = joined(chunks);
            let whole = translated_all(Seq::empty(), decoded(stream).frames);
            &&& received(Seq::empty(), Seq::empty(), chunks).events == whole.events
            &&& received(Seq::empty(), Seq::empty(), chunks).held == whole.held
            &&& received(Seq::empty(), Seq::empty(), chunks).pending == stream.skip(decoded(stream).end)
        }),
{
    assert(Seq::<u8>::empty() + joined(chunks) =~= joined(chunks));
    lemma_reads_do_not_show_in_events(Seq::empty(), Seq::empty(), chunks);
}

/// While a control sequence is not whole, in however many reads its bytes
/// have come, the session gets nothing of it: no event is given out, what
/// was held back of the data stays as it was, and every byte that has come
/// is kept for the reads that follow.
pub proof fn lemma_cut_short_gives_no_event(
    sequence: Seq<u8>,
    frame: Frame,
    held: Seq<u8>,
    chunks: Seq<Seq<u8>>,
)
    requires
        carries(sequence, frame),
        joined(chunks).len() < sequence.len(),
        joined(chunks) == sequence.take(joined(chunks).len() as int),
    ensures
        received(Seq::empty(), held, chunks).events == Seq::<SessionEvent>::empty(),
        received(Seq::empty(), held, chunks).held == held,
        received(Seq::empty(), held, chunks).pending == joined(chunks),
{
    let stream = joined(chunks);
    assert(Seq::<u8>::empty() + stream =~= stream);
    lemma_cut_short_is_silent(sequence, frame, stream.len() as int);
    lemma_reads_do_not_show_in_events(Seq::empty(), held, chunks);
    lemma_translated_of_one(held, frame);
    assert(stream.skip(0) =~= stream);
}

/// Once a control sequence is whole, in however many reads its bytes have
/// come, the session has got what its one frame is translated to, and
/// nothing else: one event for a report of the window's size. No byte of the
/// sequence is kept.
pub proof fn lemma_whole_gives_its_event(sequence: Seq<u8>, frame: Frame, held: Seq<u8>, chunks: Seq<Seq<u8>>)
    requires
        carries(sequence, frame),
        joined(chunks) == sequence,
    ensures
        received(Seq::empty(), held, chunks).events == translated(held, frame).events,
        received(Seq::empty(), held, chunks).held == held,
        received(Seq::empty(), held, chunks).pending == Seq::<u8>::empty(),
        frame is Resize ==> received(Seq::empty(), held, chunks).events == seq![
            SessionEvent::Resize { width: frame->width, height: frame->height },
        ],
{
    assert(Seq::<u8>::empty() + sequence =~= sequence);
    lemma_whole_is_one_event(sequence, frame);
    lemma_reads_do_not_show_in_events(Seq::empty(), held, chunks);
    lemma_translated_of_one(held, frame);
    assert(sequence.skip(sequence.len() as int) =~= Seq::<u8>::empty());
}

} // verus!
