use std::collections::VecDeque;
use vstd::prelude::*;

use crate::buf::append_all;
use crate::channel::{
    find_peer, payloads_view, sweep, receive_step, reliable_packet, reply_view, sweep_all, with_peer,
    peer_at, next_seq, ChannelConfig, PeerModel, PendingModel, ReliableChannel,
};
use crate::clock::Clock;
use crate::message::MessageType;
use crate::transport::{Reliability, ReliableTransport, Transport, TransportError};

verus! {

/// Most packets that one `recv` takes from the medium while looking for a message to
/// hand out (acknowledgments and early arrivals release nothing).
pub const MAX_PACKETS_PER_RECV: usize = 256;

/// Inbound messages as the model sees them: sender address and payload.
pub open spec fn inbox_view(q: Seq<(String, Vec<u8>)>) -> Seq<(Seq<char>, Seq<u8>)> {
    q.map_values(|x: (String, Vec<u8>)| (x.0@, x.1@))
}

/// What `deliver` makes of `bytes` arriving from `addr`: the peers and the queue of
/// released messages afterwards. An empty message is the medium's close signal: the
/// peer is forgotten and the signal queued. Anything else goes through the engine
/// (see `receive_step`).
pub open spec fn delivered(
    peers: Seq<PeerModel>,
    inbox: Seq<(Seq<char>, Seq<u8>)>,
    addr: Seq<char>,
    bytes: Seq<u8>,
) -> (Seq<PeerModel>, Seq<(Seq<char>, Seq<u8>)>) {
    if bytes.len() == 0 {
        (
            match find_peer(peers, addr) {
                Some(i) => peers.remove(i),
                None => peers,
            },
            inbox.push((addr, bytes)),
        )
    } else {
        let st = receive_step(peers, addr, bytes);
        (st.0, inbox + st.1.map_values(|p: Seq<u8>| (addr, p)))
    }
}

/// The packets `pkts` (sender address and bytes) delivered in order.
pub open spec fn delivered_all(
    peers: Seq<PeerModel>,
    inbox: Seq<(Seq<char>, Seq<u8>)>,
    pkts: Seq<(Seq<char>, Seq<u8>)>,
) -> (Seq<PeerModel>, Seq<(Seq<char>, Seq<u8>)>)
    decreases pkts.len(),
{
    if pkts.len() == 0 {
        (peers, inbox)
    } else {
        let r = delivered_all(peers, inbox, pkts.drop_last());
        delivered(r.0, r.1, pkts.last().0, pkts.last().1)
    }
}

/// Delivering only ever appends to the queue.
pub proof fn lemma_delivered_all_grows(
    peers: Seq<PeerModel>,
    inbox: Seq<(Seq<char>, Seq<u8>)>,
    pkts: Seq<(Seq<char>, Seq<u8>)>,
)
    ensures
        delivered_all(peers, inbox, pkts).1.len() >= inbox.len(),
    decreases pkts.len(),
{
    if pkts.len() > 0 {
        lemma_delivered_all_grows(peers, inbox, pkts.drop_last());
    }
}

/// Every peer after a retransmission sweep at `now`.
pub open spec fn swept(peers: Seq<PeerModel>, now: u64, interval: u64, max_retries: u32) -> Seq<
    PeerModel,
> {
    Seq::new(
        peers.len(),
        |i: int|
            PeerModel { pending: sweep(peers[i].pending, now, interval, max_retries).0, ..peers[i] },
    )
}

/// The peers after `bytes` is sent to `addr` with `reliability` at `now`: unchanged
/// for an unreliable message; otherwise the peer gets its next sequence and a pending
/// entry for the packet.
pub open spec fn sent_peers(
    peers: Seq<PeerModel>,
    addr: Seq<char>,
    bytes: Seq<u8>,
    reliability: Reliability,
    now: u64,
) -> Seq<PeerModel> {
    if reliability == Reliability::Unreliable {
        peers
    } else {
        let ordered = reliability != Reliability::ReliableUnordered;
        let ps = with_peer(peers, addr);
        let i = peer_at(peers, addr);
        let s = next_seq(ps[i].sequence);
        ps.update(
            i,
            PeerModel {
                sequence: s,
                pending: ps[i].pending.push(
                    PendingModel {
                        sequence: s,
                        packet: reliable_packet(bytes, s, ordered),
                        last_sent_at: now,
                        retry_count: 0,
                    },
                ),
                ..ps[i]
            },
        )
    }
}

/// The reliability a medium with both capabilities gives `send_reliable_to`.
pub open spec fn reliable_mode(ordered: bool) -> Reliability {
    if ordered {
        Reliability::ReliableOrdered(0)
    } else {
        Reliability::ReliableUnordered
    }
}

/// The reliable delivery engine put on top of a medium that only delivers
/// best-effort datagrams. It is itself a medium with both capabilities: every
/// message is wrapped in the engine's header, reliable ones are retransmitted until
/// acknowledged (within the retry ceiling), and inbound reliable messages are
/// acknowledged, deduplicated and, when ordered, released in sequence order.
pub struct ReliableLink<T: Transport> {
    transport: T,
    channel: ReliableChannel,
    inbox: VecDeque<(String, Vec<u8>)>,
    clock: Clock,
}

impl<T: Transport> ReliableLink<T> {
    /// The engine's state, peer by peer.
    pub closed spec fn peers(&self) -> Seq<PeerModel> {
        self.channel@
    }

    /// The retransmission settings.
    pub closed spec fn config(&self) -> ChannelConfig {
        self.channel.config
    }

    /// Released messages not yet handed out, oldest first.
    pub closed spec fn inbox(&self) -> Seq<(Seq<char>, Seq<u8>)> {
        inbox_view(self.inbox@)
    }

    pub fn new(transport: T, config: ChannelConfig) -> (r: Self)
        ensures
            r.peers() == Seq::<PeerModel>::empty(),
            r.config() == config,
            r.inbox() == Seq::<(Seq<char>, Seq<u8>)>::empty(),
    {
        let r = ReliableLink {
            transport,
            channel: ReliableChannel::new(config),
            inbox: VecDeque::new(),
            clock: Clock::start(),
        };
        proof {
            assert(inbox_view(r.inbox@) =~= Seq::empty());
        }
        r
    }

    /// The medium underneath.
    pub fn medium(&self) -> &T {
        &self.transport
    }

    /// The engine's state.
    pub fn channel(&self) -> (r: &ReliableChannel)
        ensures
            r@ == self.peers(),
            r.config == self.config(),
    {
        &self.channel
    }

    /// Handles what the medium handed in from `addr`; returns the acknowledgment to
    /// send back, if any. An empty message is the medium's close signal: the engine
    /// forgets the peer and the signal is passed on. Anything else goes through the
    /// engine (see `receive_step`), and the payloads it releases are queued.
    pub fn deliver(&mut self, addr: String, bytes: Vec<u8>) -> (r: Option<Vec<u8>>)
        ensures
            final(self).config() == old(self).config(),
            (final(self).peers(), final(self).inbox()) == delivered(
                old(self).peers(),
                old(self).inbox(),
                addr@,
                bytes@,
            ),
            bytes@.len() == 0 ==> ({
                &&& final(self).peers() == match find_peer(old(self).peers(), addr@) {
                    Some(i) => old(self).peers().remove(i),
                    None => old(self).peers(),
                }
                &&& final(self).inbox() == old(self).inbox().push((addr@, bytes@))
                &&& r is None
            }),
            bytes@.len() > 0 ==> ({
                let st = receive_step(old(self).peers(), addr@, bytes@);
                &&& final(self).peers() == st.0
                &&& final(self).inbox() == old(self).inbox() + st.1.map_values(
                    |p: Seq<u8>| (addr@, p),
                )
                &&& reply_view(r) == st.2
            }),
    {
        let ghost q0 = inbox_view(self.inbox@);
        if bytes.len() == 0 {
            self.channel.forget(addr.as_str());
            let ghost item = (addr@, bytes@);
            self.inbox.push_back((addr, bytes));
            proof {
                assert(inbox_view(self.inbox@) =~= q0.push(item));
            }
            return None;
        }
        let got = self.channel.receive(addr.as_str(), bytes.as_slice());
        let released = got.released;
        let ghost ch = self.channel;
        let mut i: usize = 0;
        while i < released.len()
            invariant
                self.channel == ch,
                i <= released@.len(),
                inbox_view(self.inbox@) == q0 + payloads_view(released@.subrange(0, i as int)).map_values(
                    |p: Seq<u8>| (addr@, p),
                ),
            decreases released@.len() - i,
        {
            let ghost before = inbox_view(self.inbox@);
            let mut copy: Vec<u8> = Vec::new();
            append_all(&mut copy, released[i].as_slice());
            self.inbox.push_back((addr.clone(), copy));
            i = i + 1;
            proof {
                let g = |p: Seq<u8>| (addr@, p);
                assert(inbox_view(self.inbox@) =~= before.push((addr@, released@[i - 1]@)));
                assert(released@.subrange(0, i as int) =~= released@.subrange(0, i - 1 as int).push(
                    released@[i - 1],
                ));
                assert(payloads_view(released@.subrange(0, i as int)) =~= payloads_view(
                    released@.subrange(0, i - 1 as int),
                ).push(released@[i - 1]@));
                assert(payloads_view(released@.subrange(0, i as int)).map_values(g) =~= payloads_view(
                    released@.subrange(0, i - 1 as int),
                ).map_values(g).push((addr@, released@[i - 1]@)));
            }
        }
        proof {
            assert(released@.subrange(0, released@.len() as int) =~= released@);
        }
        got.reply
    }

    /// Sends `bytes` to `addr` at time `now`. Unreliable messages go out with the
    /// bare header; reliable ones (ordered on any channel, or unordered) get the next
    /// sequence of that peer and wait in its pending table for their acknowledgment.
    pub fn send_at(&mut self, addr: &str, bytes: &[u8], reliability: Reliability, now: u64) -> (r:
        Result<(), TransportError>)
        ensures
            final(self).config() == old(self).config(),
            final(self).inbox() == old(self).inbox(),
            final(self).peers() == sent_peers(old(self).peers(), addr@, bytes@, reliability, now),
            reliability == Reliability::Unreliable ==> final(self).peers() == old(self).peers(),
            reliability != Reliability::Unreliable ==> ({
                let ordered = reliability != Reliability::ReliableUnordered;
                let ps = with_peer(old(self).peers(), addr@);
                let i = peer_at(old(self).peers(), addr@);
                let s = next_seq(ps[i].sequence);
                final(self).peers() == ps.update(
                    i,
                    PeerModel {
                        sequence: s,
                        pending: ps[i].pending.push(
                            PendingModel {
                                sequence: s,
                                packet: reliable_packet(bytes@, s, ordered),
                                last_sent_at: now,
                                retry_count: 0,
                            },
                        ),
                        ..ps[i]
                    },
                )
            }),
    {
        match reliability {
            Reliability::Unreliable => {
                let mut body: Vec<u8> = Vec::new();
                append_all(&mut body, bytes);
                let packet = MessageType::Unreliable(body).encode();
                self.transport.send_to(addr, packet.as_slice(), Reliability::Unreliable)
            },
            Reliability::ReliableUnordered => {
                let packet = self.channel.send_reliable(addr, bytes, false, now);
                self.transport.send_to(addr, packet.as_slice(), Reliability::Unreliable)
            },
            Reliability::ReliableOrdered(_) => {
                let packet = self.channel.send_reliable(addr, bytes, true, now);
                self.transport.send_to(addr, packet.as_slice(), Reliability::Unreliable)
            },
        }
    }

    /// Forgets the peer at `addr` (see `ReliableChannel::forget`): its pending packets
    /// are never sent again and its reorder buffer is released.
    pub fn forget_peer(&mut self, addr: &str)
        ensures
            final(self).config() == old(self).config(),
            final(self).inbox() == old(self).inbox(),
            final(self).peers() == match find_peer(old(self).peers(), addr@) {
                Some(i) => old(self).peers().remove(i),
                None => old(self).peers(),
            },
    {
        self.channel.forget(addr);
    }

    /// The retransmission sweep at time `now`: every packet due goes out again (see
    /// `ReliableChannel::retransmit_due`). Send failures are left to the retry ceiling.
    pub fn retransmit_at(&mut self, now: u64) -> (r: Vec<(String, Vec<u8>)>)
        ensures
            final(self).config() == old(self).config(),
            final(self).inbox() == old(self).inbox(),
            final(self).peers() == swept(
                old(self).peers(),
                now,
                old(self).config().retransmit_interval_ms,
                old(self).config().max_retries,
            ),
            final(self).peers().len() == old(self).peers().len(),
            forall|i: int|
                0 <= i < old(self).peers().len() ==> #[trigger] final(self).peers()[i] == (PeerModel {
                    pending: sweep(
                        old(self).peers()[i].pending,
                        now,
                        old(self).config().retransmit_interval_ms,
                        old(self).config().max_retries,
                    ).0,
                    ..old(self).peers()[i]
                }),
            r@.map_values(|x: (String, Vec<u8>)| (x.0@, x.1@)) == sweep_all(
                old(self).peers(),
                now,
                old(self).config().retransmit_interval_ms,
                old(self).config().max_retries,
            ),
    {
        let due = self.channel.retransmit_due(now);
        let ghost ch = self.channel;
        let mut i: usize = 0;
        while i < due.len()
            invariant
                self.channel == ch,
                self.inbox == old(self).inbox,
                i <= due@.len(),
            decreases due@.len() - i,
        {
            let d = &due[i];
            let _ = self.transport.send_to(d.0.as_str(), d.1.as_slice(), Reliability::Unreliable);
            i = i + 1;
        }
        proof {
            assert(self.peers() =~= swept(
                old(self).peers(),
                now,
                old(self).config().retransmit_interval_ms,
                old(self).config().max_retries,
            ));
        }
        due
    }

    /// The oldest released message not yet handed out.
    pub fn pop_inbound(&mut self) -> (r: Option<(String, Vec<u8>)>)
        ensures
            final(self).peers() == old(self).peers(),
            final(self).config() == old(self).config(),
            old(self).inbox().len() == 0 ==> r is None && final(self).inbox() == old(self).inbox(),
            old(self).inbox().len() > 0 ==> (r matches Some(x) && (x.0@, x.1@) == old(
                self,
            ).inbox()[0] && final(self).inbox() == old(self).inbox().drop_first()),
    {
        let r = self.inbox.pop_front();
        proof {
            if old(self).inbox@.len() > 0 {
                assert(inbox_view(self.inbox@) =~= inbox_view(old(self).inbox@).drop_first());
            }
        }
        r
    }
}

impl<T: Transport> Transport for ReliableLink<T> {
    /// Drives the medium's poll, then the retransmission sweep at the current time.
    fn poll(&mut self)
        ensures
            final(self).config() == old(self).config(),
            final(self).inbox() == old(self).inbox(),
            exists|now: u64|
                final(self).peers() == #[trigger] swept(
                    old(self).peers(),
                    now,
                    old(self).config().retransmit_interval_ms,
                    old(self).config().max_retries,
                ),
    {
        self.transport.poll();
        let ghost mid = self.peers();
        let now = self.clock.now_ms();
        let _ = self.retransmit_at(now);
        proof {
            assert(mid == old(self).peers());
            assert(self.peers() == swept(
                old(self).peers(),
                now,
                old(self).config().retransmit_interval_ms,
                old(self).config().max_retries,
            ));
        }
    }

    /// Hands out the next released message: from the queue, or else from the packets
    /// the medium has pending (at most `MAX_PACKETS_PER_RECV`), acknowledging reliable
    /// ones as they come. Which packets were pending is up to the medium.
    fn recv(&mut self) -> (r: Option<(String, Vec<u8>)>)
        ensures
            final(self).config() == old(self).config(),
            old(self).inbox().len() > 0 ==> (r matches Some(x) && (x.0@, x.1@) == old(
                self,
            ).inbox()[0] && final(self).inbox() == old(self).inbox().drop_first()
                && final(self).peers() == old(self).peers()),
            exists|pkts: Seq<(Seq<char>, Seq<u8>)>|
                pkts.len() <= MAX_PACKETS_PER_RECV && ({
                    let d = #[trigger] delivered_all(old(self).peers(), old(self).inbox(), pkts);
                    &&& final(self).peers() == d.0
                    &&& d.1.len() == 0 ==> r is None && final(self).inbox() == d.1
                    &&& d.1.len() > 0 ==> (r matches Some(x) && (x.0@, x.1@) == d.1[0]
                        && final(self).inbox() == d.1.drop_first())
                }),
    {
        let ghost mut pkts: Seq<(Seq<char>, Seq<u8>)> = Seq::empty();
        let mut n: usize = 0;
        let mut done = false;
        while !done && self.inbox.len() == 0 && n < MAX_PACKETS_PER_RECV
            invariant
                self.config() == old(self).config(),
                pkts.len() <= n <= MAX_PACKETS_PER_RECV,
                pkts.len() > 0 ==> old(self).inbox().len() == 0,
                (self.peers(), self.inbox()) == delivered_all(
                    old(self).peers(),
                    old(self).inbox(),
                    pkts,
                ),
            decreases MAX_PACKETS_PER_RECV - n,
        {
            proof {
                lemma_delivered_all_grows(old(self).peers(), old(self).inbox(), pkts);
                assert(self.inbox().len() == 0);
            }
            match self.transport.recv() {
                Some((addr, bytes)) => {
                    let ghost item = (addr@, bytes@);
                    let reply = self.deliver(addr.clone(), bytes);
                    proof {
                        let prev = pkts;
                        pkts = pkts.push(item);
                        assert(pkts.drop_last() =~= prev);
                    }
                    match reply {
                        Some(ack) => {
                            let _ = self.transport.send_to(
                                addr.as_str(),
                                ack.as_slice(),
                                Reliability::Unreliable,
                            );
                        },
                        None => {},
                    }
                },
                None => {
                    done = true;
                },
            }
            n = n + 1;
        }
        self.pop_inbound()
    }

    /// Sends at the current time (see `send_at`).
    fn send_to(&mut self, addr: &str, bytes: &[u8], reliability: Reliability) -> (r: Result<
        (),
        TransportError,
    >)
        ensures
            final(self).config() == old(self).config(),
            final(self).inbox() == old(self).inbox(),
            exists|now: u64|
                final(self).peers() == #[trigger] sent_peers(
                    old(self).peers(),
                    addr@,
                    bytes@,
                    reliability,
                    now,
                ),
    {
        let now = self.clock.now_ms();
        self.send_at(addr, bytes, reliability, now)
    }

    /// Forgets the peer (see `forget_peer`), then tells the medium.
    fn close(&mut self, addr: &str)
        ensures
            final(self).config() == old(self).config(),
            final(self).inbox() == old(self).inbox(),
            final(self).peers() == match find_peer(old(self).peers(), addr@) {
                Some(i) => old(self).peers().remove(i),
                None => old(self).peers(),
            },
    {
        self.forget_peer(addr);
        self.transport.close(addr);
    }
}

impl<T: Transport> ReliableTransport for ReliableLink<T> {
    /// Sends reliably at the current time, ordered on channel 0 or unordered (see
    /// `send_at`).
    fn send_reliable_to(&mut self, addr: &str, bytes: &[u8], ordered: bool) -> (r: Result<
        (),
        TransportError,
    >)
        ensures
            final(self).config() == old(self).config(),
            final(self).inbox() == old(self).inbox(),
            exists|now: u64|
                final(self).peers() == #[trigger] sent_peers(
                    old(self).peers(),
                    addr@,
                    bytes@,
                    reliable_mode(ordered),
                    now,
                ),
    {
        let now = self.clock.now_ms();
        let reliability = if ordered {
            Reliability::ReliableOrdered(0)
        } else {
            Reliability::ReliableUnordered
        };
        self.send_at(addr, bytes, reliability, now)
    }
}

} // verus!
