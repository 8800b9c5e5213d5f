use vstd::prelude::*;

verus! {

/// The delivery guarantee asked of a medium for one message.
#[derive(Clone, Copy, Debug, PartialEq, Eq, Structural)]
pub enum Reliability {
    /// Fire and forget.
    Unreliable,
    /// Delivered exactly once, in no particular order.
    ReliableUnordered,
    /// Delivered exactly once, in order, on the given channel.
    ReliableOrdered(u8),
}

/// A send failed: the destination is unreachable or closed.
#[derive(Clone, Copy, Debug, PartialEq, Eq, Structural)]
pub enum TransportError {
    Unreachable,
}

/// What every medium offers.
///
/// `recv` hands out at most one inbound message per call, `None` when nothing is
/// pending. An inbound message with an empty payload signals that the peer closed
/// the connection at the transport level.
pub trait Transport {
    /// A non-blocking housekeeping tick (accept connections, drive timers).
    fn poll(&mut self);

    /// The next inbound message and the address of its sender, if any.
    fn recv(&mut self) -> Option<(String, Vec<u8>)>;

    /// Sends `bytes` to `addr` with the given delivery guarantee.
    fn send_to(&mut self, addr: &str, bytes: &[u8], reliability: Reliability) -> Result<
        (),
        TransportError,
    >;

    /// The session layer is done with `addr`: release what the medium keeps for it
    /// (nothing more is retransmitted to it).
    fn close(&mut self, addr: &str);
}

/// What a medium offers when it guarantees delivery itself.
pub trait ReliableTransport: Transport {
    /// Sends `bytes` to `addr` reliably, ordered or unordered.
    fn send_reliable_to(&mut self, addr: &str, bytes: &[u8], ordered: bool) -> Result<
        (),
        TransportError,
    >;
}

} // verus!
