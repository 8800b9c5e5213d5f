//! Transport-agnostic networking for realtime multiplayer applications.
//!
//! The library is layered, leaves first:
//! - [`transport`]: the capabilities a medium offers (`Transport`, `ReliableTransport`);
//! - [`message`]: the reliability header that the delivery engine puts on the wire;
//! - [`channel`]: the reliable delivery engine (sequencing, reordering, acknowledgment,
//!   bounded retransmission);
//! - [`link`]: the engine put on top of an unreliable medium, as a medium itself;
//! - [`framing`]: length-prefix framing for stream-oriented media;
//! - [`opcode`]: the one-byte lifecycle tag of session messages;
//! - [`server`] and [`client`]: the two session state machines;
//! - [`clock`]: the monotonic clock that drives timeouts and retransmission.
mod buf;
pub mod channel;
pub mod client;
pub mod clock;
pub mod framing;
pub mod link;
pub mod message;
pub mod opcode;
pub mod server;
pub mod transport;

pub use channel::{ChannelConfig, ReliableChannel};
pub use client::{Client, ClientEvent, ClientState};
pub use link::ReliableLink;
pub use message::MessageType;
pub use opcode::Opcode;
pub use server::{ClientData, Server, ServerConfig, ServerEvent};
pub use transport::{Reliability, ReliableTransport, Transport, TransportError};
