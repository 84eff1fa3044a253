//! The boundary between a connection and its session. Inbound, decoded
//! events are turned into what the session acts on and pushed onto a queue
//! that the session reads. Outbound, the session's commands are lined up
//! behind the handshake and handed to the socket piece by piece.

use crate::codec::{decoded, wire, wire_all, Frame, OutboundCommand, ProtocolEvent};
use crate::input::{input_parsed, parse_input, SessionEvent};
use crate::negotiation::{handshake, negotiation_bytes};
use crate::resume::Decoder;
use crossbeam_channel::{Receiver, Sender};
use vstd::prelude::*;

verus! {

/// `Sender` of crossbeam-channel: the sending end of a queue. What the
/// queue holds is not looked into.
#[verifier::external_type_specification]
#[verifier::external_body]
#[verifier::reject_recursive_types(T)]
pub struct ExSender<T>(Sender<T>);

/// `Receiver` of crossbeam-channel: the receiving end of a queue. It is
/// made here and handed to the session, which reads it.
#[verifier::external_type_specification]
#[verifier::external_body]
#[verifier::reject_recursive_types(T)]
pub struct ExReceiver<T>(Receiver<T>);

/// The events that a sending end has put on its queue, in the order in
/// which they were put there.
pub uninterp spec fn handed(sender: Sender<SessionEvent>) -> Seq<SessionEvent>;

/// `unbounded` of crossbeam-channel: the two ends of a new queue without a
/// limit. Nothing has been put on a new queue.
#[verifier::external_body]
fn open_queue() -> (ends: (Sender<SessionEvent>, Receiver<SessionEvent>))
    ensures
        handed(ends.0) == Seq::<SessionEvent>::empty(),
{
    crossbeam_channel::unbounded()
}

/// `Sender::send` of crossbeam-channel: `true` where the send succeeded,
/// `false` where it failed, as it does once the receiving end is gone. A
/// send that succeeds has written the event into the queue behind all that
/// was written before; one that fails hands the event back and writes
/// nothing. On a queue without a limit, the only kind made here, the call
/// does not wait. Nothing is claimed of which of the two comes back. The
/// sender is taken by `&mut` so that the contract can speak of it before and
/// after: this holds of a sender that is not shared, as the one of a bridge.
#[verifier::external_body]
fn push(sender: &mut Sender<SessionEvent>, event: SessionEvent) -> (taken: bool)
    ensures
        taken ==> handed(*final(sender)) == handed(*old(sender)).push(event),
        !taken ==> handed(*final(sender)) == handed(*old(sender)),
{
    sender.send(event).is_ok()
}

/// Whether a connection's inbound flow goes on.
#[derive(Debug, Copy, Clone, PartialEq, Eq, Structural)]
pub enum Flow {
    /// The session is there: go on forwarding.
    Open,
    /// The session is gone: stop, and take the connection down.
    Closed,
}

impl Flow {
    /// What a push says of the flow: it goes on where the event was taken,
    /// and has ended where it was not.
    pub open spec fn after(taken: bool) -> Flow {
        if taken {
            Flow::Open
        } else {
            Flow::Closed
        }
    }

    /// What a push says of the flow.
    pub fn after_push(taken: bool) -> (flow: Flow)
        ensures
            flow == Flow::after(taken),
    {
        if taken {
            Flow::Open
        } else {
            Flow::Closed
        }
    }
}

/// What the session gets of some frames, and the data bytes that are held
/// back: the start of a mouse report that is not whole yet.
pub struct Translation {
    pub events: Seq<SessionEvent>,
    pub held: Seq<u8>,
}

/// What the session gets of a decoded event, with `held` held back before
/// it: the new size for a resize; for a run of data, the keys and mouse
/// events of what was held back and the run together, as far as they are
/// whole; nothing for a negotiation or any other subnegotiation. Only a run
/// of data changes what is held back.
pub open spec fn translated(held: Seq<u8>, frame: Frame) -> Translation {
    match frame {
        Frame::Resize { width, height } => Translation {
            events: seq![SessionEvent::Resize { width, height }],
            held,
        },
        Frame::RawInput { bytes } => Translation {
            events: input_parsed(held + bytes).events,
            held: (held + bytes).skip(input_parsed(held + bytes).end),
        },
        Frame::Negotiate { .. } => Translation { events: Seq::empty(), held },
        Frame::Subnegotiation { .. } => Translation { events: Seq::empty(), held },
    }
}

/// What the session gets of the frames from `at` on, in their order.
pub open spec fn translated_from(held: Seq<u8>, frames: Seq<Frame>, at: int) -> Translation
    decreases frames.len() - at,
{
    if at < 0 || at >= frames.len() {
        Translation { events: Seq::empty(), held }
    } else {
        let first = translated(held, frames[at]);
        let rest = translated_from(first.held, frames, at + 1);
        Translation { events: first.events + rest.events, held: rest.held }
    }
}

/// What the session gets of a list of frames, in their order.
pub open spec fn translated_all(held: Seq<u8>, frames: Seq<Frame>) -> Translation {
    translated_from(held, frames, 0)
}

/// What the session gets of a decoded event. `held` is what was held back
/// before, and becomes what is held back now.
pub fn translate(held: &mut Vec<u8>, event: &ProtocolEvent) -> (events: Vec<SessionEvent>)
    ensures
        events@ == translated(old(held)@, event@).events,
        final(held)@ == translated(old(held)@, event@).held,
{
    match event {
        ProtocolEvent::Resize { width, height } => {
            let mut events: Vec<SessionEvent> = Vec::new();
            events.push(SessionEvent::Resize { width: *width, height: *height });
            assert(events@ =~= translated(old(held)@, event@).events);
            events
        },
        ProtocolEvent::RawInput { bytes } => {
            let mut i: usize = 0;
            while i < bytes.len()
                invariant
                    i <= bytes.len(),
                    held@ == old(held)@ + bytes@.take(i as int),
                decreases bytes.len() - i,
            {
                held.push(bytes[i]);
                assert(bytes@.take(i as int).push(bytes@[i as int]) =~= bytes@.take(i + 1));
                i += 1;
            }
            assert(bytes@.take(bytes.len() as int) =~= bytes@);
            let (events, end) = parse_input(held.as_slice());
            let mut rest: Vec<u8> = Vec::new();
            let mut j: usize = end;
            while j < held.len()
                invariant
                    end <= j <= held.len(),
                    rest@ == held@.subrange(end as int, j as int),
                decreases held.len() - j,
            {
                rest.push(held[j]);
                j += 1;
            }
            assert(rest@ =~= held@.skip(end as int));
            *held = rest;
            events
        },
        ProtocolEvent::Negotiate { .. } => Vec::new(),
        ProtocolEvent::Subnegotiation { .. } => Vec::new(),
    }
}

/// The inbound side of a connection: the decoder, with the bytes of a unit
/// that is not whole yet, and the data bytes of a mouse report that is not
/// whole yet.
pub struct Inbound {
    decoder: Decoder,
    held: Vec<u8>,
}

impl Inbound {
    /// The bytes of the unit that is not whole yet.
    pub closed spec fn pending(&self) -> Seq<u8> {
        self.decoder@
    }

    /// The data bytes of the mouse report that is not whole yet.
    pub closed spec fn held(&self) -> Seq<u8> {
        self.held@
    }

    /// The inbound side of a new connection: nothing is held back.
    pub fn new() -> (inbound: Inbound)
        ensures
            inbound.pending() == Seq::<u8>::empty(),
            inbound.held() == Seq::<u8>::empty(),
    {
        Inbound { decoder: Decoder::new(), held: Vec::new() }
    }

    /// The number of bytes held back of a unit that is not whole yet.
    pub fn pending_len(&self) -> (len: usize)
        ensures
            len == self.pending().len(),
    {
        self.decoder.pending_len()
    }

    /// The number of data bytes held back of a mouse report that is not
    /// whole yet.
    pub fn held_len(&self) -> (len: usize)
        ensures
            len == self.held().len(),
    {
        self.held.len()
    }
}

/// Takes the bytes of one read and gives what the session gets of them, in
/// the order of the bytes. The units that are whole now are decoded and
/// translated. What is not whole is held back for the next read and never
/// handed on in parts: the bytes of a unit that is cut short, and the data
/// bytes of a mouse report that is cut short.
pub fn receive(inbound: &mut Inbound, chunk: &[u8]) -> (events: Vec<SessionEvent>)
    ensures
        events@ == translated_all(
            old(inbound).held(),
            decoded(old(inbound).pending() + chunk@).frames,
        ).events,
        final(inbound).held() == translated_all(
            old(inbound).held(),
            decoded(old(inbound).pending() + chunk@).frames,
        ).held,
        final(inbound).pending() == (old(inbound).pending() + chunk@).skip(
            decoded(old(inbound).pending() + chunk@).end,
        ),
{
    let decoded = inbound.decoder.feed(chunk);
    let ghost list = crate::codec::frames(decoded@);
    let ghost whole = translated_all(old(inbound).held(), list);
    let mut events: Vec<SessionEvent> = Vec::new();
    let mut at: usize = 0;
    assert(events@ + translated_from(inbound.held@, list, 0).events =~= whole.events);
    while at < decoded.len()
        invariant
            at <= decoded.len(),
            list == crate::codec::frames(decoded@),
            inbound.pending() == (old(inbound).pending() + chunk@).skip(
                crate::codec::decoded(old(inbound).pending() + chunk@).end,
            ),
            events@ + translated_from(inbound.held@, list, at as int).events == whole.events,
            translated_from(inbound.held@, list, at as int).held == whole.held,
        decreases decoded.len() - at,
    {
        let ghost before = events@;
        let ghost held_before = inbound.held@;
        let mut more = translate(&mut inbound.held, &decoded[at]);
        events.append(&mut more);
        proof {
            let first = translated(held_before, list[at as int]);
            let rest = translated_from(first.held, list, at + 1);
            assert(list[at as int] == decoded[at as int]@);
            assert(before + (first.events + rest.events) =~= events@ + rest.events);
        }
        at += 1;
    }
    assert(events@ + Seq::<SessionEvent>::empty() =~= events@);
    events
}

/// The sending end of a connection's inbound queue. It is never shared:
/// what the queue holds came through `forward`.
pub struct Bridge {
    sender: Sender<SessionEvent>,
}

impl Bridge {
    /// The events that this end has put on the queue, in the order in which
    /// they were put there.
    pub closed spec fn forwarded(&self) -> Seq<SessionEvent> {
        handed(self.sender)
    }

    /// A new queue without a limit: the sending end for the connection, on
    /// which nothing has been put yet, and the receiving end for its session.
    pub fn new() -> (ends: (Bridge, Receiver<SessionEvent>))
        ensures
            ends.0.forwarded() == Seq::<SessionEvent>::empty(),
    {
        let (sender, receiver) = open_queue();
        (Bridge { sender }, receiver)
    }

    /// Puts the events on the queue in their order, up to the first that the
    /// queue does not take. The flow goes on where all were taken; it has
    /// ended where one was not, and that one and those behind it are not on
    /// the queue.
    pub fn forward(&mut self, events: &Vec<SessionEvent>) -> (flow: Flow)
        ensures
            final(self).forwarded().len() <= old(self).forwarded().len() + events@.len(),
            final(self).forwarded() == old(self).forwarded() + events@.take(
                final(self).forwarded().len() - old(self).forwarded().len(),
            ),
            flow == Flow::Open <==> final(self).forwarded().len() == old(self).forwarded().len()
                + events@.len(),
            flow == Flow::Open ==> final(self).forwarded() == old(self).forwarded() + events@,
    {
        let mut at: usize = 0;
        assert(self.forwarded() + events@.take(0) =~= self.forwarded());
        while at < events.len()
            invariant
                at <= events.len(),
                self.forwarded() == old(self).forwarded() + events@.take(at as int),
            decreases events.len() - at,
        {
            let flow = Flow::after_push(push(&mut self.sender, events[at]));
            if flow == Flow::Closed {
                return flow;
            }
            assert(self.forwarded() =~= old(self).forwarded() + events@.take(at + 1)) by {
                assert(events@.take(at as int).push(events@[at as int]) =~= events@.take(at + 1));
            }
            at += 1;
        }
        assert(events@.take(events@.len() as int) =~= events@);
        Flow::Open
    }
}

/// The outbound side of a connection: the bytes that wait for the socket,
/// and a record of those that were handed to it. The handshake is put in when
/// the outbox is made, and bytes are only ever added at the end.
pub struct Outbox {
    queued: Vec<u8>,
    limit: usize,
    sent: Ghost<Seq<u8>>,
}

impl Outbox {
    /// Every byte that the outbox has ever taken, in order: those handed to
    /// the socket, then those that wait.
    pub closed spec fn stream(&self) -> Seq<u8> {
        self.sent@ + self.queued@
    }

    /// The bytes handed to the socket so far.
    pub closed spec fn sent(&self) -> Seq<u8> {
        self.sent@
    }

    /// The bytes that wait.
    pub closed spec fn queued(&self) -> Seq<u8> {
        self.queued@
    }

    /// The number of bytes above which a command is turned away.
    pub closed spec fn limit(&self) -> nat {
        self.limit as nat
    }

    /// The outbox of a new connection. The handshake waits in it, so that
    /// nothing can be written before it.
    pub fn open(limit: usize) -> (outbox: Outbox)
        ensures
            outbox.sent() == Seq::<u8>::empty(),
            outbox.queued() == wire_all(handshake()),
            outbox.stream() == wire_all(handshake()),
            outbox.limit() == limit,
    {
        let queued = negotiation_bytes();
        assert(Seq::<u8>::empty() + queued@ =~= queued@);
        Outbox { queued, limit, sent: Ghost(Seq::empty()) }
    }

    /// The number of bytes that wait.
    pub fn queued_len(&self) -> (len: usize)
        ensures
            len == self.queued().len(),
    {
        self.queued.len()
    }

    /// Lines a command up behind what waits. A command that would make more
    /// bytes wait than the limit allows is turned away, and nothing changes.
    /// Returns whether the command was taken.
    pub fn push(&mut self, command: &OutboundCommand) -> (taken: bool)
        ensures
            taken == (old(self).queued().len() + wire(command@).len() <= old(self).limit()),
            taken ==> final(self).queued() == old(self).queued() + wire(command@),
            !taken ==> final(self).queued() == old(self).queued(),
            final(self).sent() == old(self).sent(),
            final(self).stream() == old(self).stream() + (if taken {
                wire(command@)
            } else {
                Seq::empty()
            }),
            final(self).limit() == old(self).limit(),
    {
        let mut bytes = crate::codec::encode(command);
        if bytes.len() > self.limit || self.queued.len() > self.limit - bytes.len() {
            assert(self.stream() =~= old(self).stream() + Seq::<u8>::empty());
            return false;
        }
        self.queued.append(&mut bytes);
        assert(self.stream() =~= old(self).stream() + wire(command@));
        true
    }

    /// Hands over all that waits, in the order in which it came.
    pub fn flush(&mut self) -> (bytes: Vec<u8>)
        ensures
            bytes@ == old(self).queued(),
            final(self).sent() == old(self).sent() + bytes@,
            final(self).queued() == Seq::<u8>::empty(),
            final(self).stream() == old(self).stream(),
            final(self).limit() == old(self).limit(),
    {
        let mut bytes: Vec<u8> = Vec::new();
        bytes.append(&mut self.queued);
        proof {
            self.sent@ = self.sent@ + bytes@;
            assert(self.sent@ + self.queued@ =~= old(self).sent@ + old(self).queued@);
        }
        bytes
    }
}

/// The handshake stands at the head of all that a connection ever writes.
/// A new outbox holds the handshake and nothing else, and whatever is lined
/// up or handed over later only adds at the end: the handshake stays first.
pub proof fn lemma_handshake_stays_first(before: Outbox, after: Outbox, added: Seq<u8>)
    requires
        wire_all(handshake()).is_prefix_of(before.stream()),
        after.stream() == before.stream() + added,
    ensures
        wire_all(handshake()).is_prefix_of(after.stream()),
{
}

} // verus!
