//! The handshake: what a server asks of a peer that has just connected.

use crate::codec::{
    commands, encode_all, wire_all, Command, Direction, OutboundCommand, OPTION_ECHO, OPTION_LINE_MODE,
    OPTION_WINDOW_SIZE,
};
use vstd::prelude::*;

verus! {

/// The requests sent to every new peer, in the order in which they are sent:
/// report the size of your window; the server will do the echoing; use line
/// mode; report the mouse.
pub open spec fn handshake() -> Seq<Command> {
    seq![
        Command::Negotiate { direction: Direction::Do, option: OPTION_WINDOW_SIZE },
        Command::Negotiate { direction: Direction::Will, option: OPTION_ECHO },
        Command::Negotiate { direction: Direction::Do, option: OPTION_LINE_MODE },
        Command::EnableMouse,
    ]
}

/// The one request of a server that only listens: report the size of your
/// window.
pub open spec fn minimal_handshake() -> Seq<Command> {
    seq![Command::Negotiate { direction: Direction::Do, option: OPTION_WINDOW_SIZE }]
}

/// The requests sent to every new peer, in order.
pub fn negotiation_batch() -> (batch: Vec<OutboundCommand>)
    ensures
        commands(batch@) == handshake(),
{
    let mut batch: Vec<OutboundCommand> = Vec::new();
    batch.push(OutboundCommand::Negotiate { direction: Direction::Do, option: OPTION_WINDOW_SIZE });
    batch.push(OutboundCommand::Negotiate { direction: Direction::Will, option: OPTION_ECHO });
    batch.push(OutboundCommand::Negotiate { direction: Direction::Do, option: OPTION_LINE_MODE });
    batch.push(OutboundCommand::EnableMouse);
    assert(commands(batch@) =~= handshake());
    batch
}

/// The one request of a server that only listens.
pub fn minimal_batch() -> (batch: Vec<OutboundCommand>)
    ensures
        commands(batch@) == minimal_handshake(),
{
    let mut batch: Vec<OutboundCommand> = Vec::new();
    batch.push(OutboundCommand::Negotiate { direction: Direction::Do, option: OPTION_WINDOW_SIZE });
    assert(commands(batch@) =~= minimal_handshake());
    batch
}

/// The handshake as the bytes of one write.
pub fn negotiation_bytes() -> (bytes: Vec<u8>)
    ensures
        bytes@ == wire_all(handshake()),
{
    let batch = negotiation_batch();
    encode_all(&batch)
}

} // verus!
