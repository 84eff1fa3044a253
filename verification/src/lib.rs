//! Conway's game of life served to remote terminals.
//!
//! The crate holds the board and its rule, the display state that a viewer
//! drives, the telnet framing that turns a byte stream into events, the fixed
//! handshake sent to a new peer, the translation of wire events into what a
//! session acts on, the laws that make all of this independent of how the
//! bytes were read, and the session's own state machine.

pub mod bridge;
pub mod codec;
pub mod entropy;
pub mod grid;
pub mod input;
pub mod negotiation;
pub mod reads;
pub mod resume;
pub mod session;
pub mod view;
