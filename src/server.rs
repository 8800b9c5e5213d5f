use std::collections::VecDeque;
use vstd::bytes::{spec_u32_to_le_bytes, u32_to_le_bytes};
use vstd::prelude::*;

use crate::clock::Clock;
use crate::opcode::{framed, spec_unframe, unframe, Opcode};
use crate::transport::{Reliability, ReliableTransport, Transport, TransportError};

verus! {

/// Most inbound messages that one `poll` takes from the transport; the rest wait
/// for the next tick.
pub const MAX_INBOUND_PER_POLL: usize = 1024;

/// Server settings.
#[derive(Clone, Copy, Debug)]
pub struct ServerConfig {
    /// A peer silent for longer than this many milliseconds is disconnected.
    pub client_timeout_ms: u64,
}

impl Default for ServerConfig {
    fn default() -> (r: ServerConfig)
        ensures
            r.client_timeout_ms == 60_000,
    {
        ServerConfig { client_timeout_ms: 60_000 }
    }
}

/// The liveness record of a connected peer.
#[derive(Debug)]
pub struct ClientData {
    pub addr: String,
    pub id: u32,
    pub last_activity: u64,
}

/// A liveness record as the model sees it.
pub struct ClientModel {
    pub addr: Seq<char>,
    pub id: u32,
    pub last_activity: u64,
}

impl View for ClientData {
    type V = ClientModel;

    open spec fn view(&self) -> ClientModel {
        ClientModel { addr: self.addr@, id: self.id, last_activity: self.last_activity }
    }
}

/// What the server reports to the application.
#[derive(Debug)]
pub enum ServerEvent {
    ClientConnected(u32),
    ClientDisconnected(u32),
    MessageReceived(u32, Vec<u8>),
}

/// An event as the model sees it.
pub enum EventModel {
    ClientConnected(u32),
    ClientDisconnected(u32),
    MessageReceived(u32, Seq<u8>),
}

impl View for ServerEvent {
    type V = EventModel;

    open spec fn view(&self) -> EventModel {
        match self {
            ServerEvent::ClientConnected(id) => EventModel::ClientConnected(*id),
            ServerEvent::ClientDisconnected(id) => EventModel::ClientDisconnected(*id),
            ServerEvent::MessageReceived(id, p) => EventModel::MessageReceived(*id, p@),
        }
    }
}

/// A message the server decided to send.
#[derive(Debug)]
pub struct Outgoing {
    pub addr: String,
    pub bytes: Vec<u8>,
    pub reliability: Reliability,
    /// The last message to this peer: the transport is told to close it afterwards.
    pub close: bool,
}

/// An outgoing message as the model sees it.
pub struct OutgoingModel {
    pub addr: Seq<char>,
    pub bytes: Seq<u8>,
    pub reliability: Reliability,
    pub close: bool,
}

impl View for Outgoing {
    type V = OutgoingModel;

    open spec fn view(&self) -> OutgoingModel {
        OutgoingModel {
            addr: self.addr@,
            bytes: self.bytes@,
            reliability: self.reliability,
            close: self.close,
        }
    }
}

/// The server's sessions: the connected peers in order of connection, the next
/// identity to assign, and the events not yet drained.
pub struct SessionModel {
    pub clients: Seq<ClientModel>,
    pub next_id: nat,
    pub events: Seq<EventModel>,
}

pub open spec fn clients_view(c: Seq<ClientData>) -> Seq<ClientModel> {
    c.map_values(|d: ClientData| d@)
}

pub open spec fn events_view(e: Seq<ServerEvent>) -> Seq<EventModel> {
    e.map_values(|v: ServerEvent| v@)
}

pub open spec fn outgoing_view(o: Seq<Outgoing>) -> Seq<OutgoingModel> {
    o.map_values(|v: Outgoing| v@)
}

/// Addresses and identities are unique among connected peers, every identity was
/// drawn from the counter, and the counter never passes the largest identity.
pub open spec fn sessions_wf(m: SessionModel) -> bool {
    &&& 1 <= m.next_id <= u32::MAX as nat + 1
    &&& forall|i: int, j: int|
        0 <= i < m.clients.len() && 0 <= j < m.clients.len() && i != j ==> m.clients[i].addr
            != m.clients[j].addr && m.clients[i].id != m.clients[j].id
    &&& forall|i: int| 0 <= i < m.clients.len() ==> (#[trigger] m.clients[i]).id < m.next_id
}

/// The index of the record of `addr`, if that peer is connected.
pub open spec fn find_client(clients: Seq<ClientModel>, addr: Seq<char>) -> Option<int> {
    if exists|i: int| 0 <= i < clients.len() && #[trigger] clients[i].addr == addr {
        Some(choose|i: int| 0 <= i < clients.len() && #[trigger] clients[i].addr == addr)
    } else {
        None
    }
}

/// The reply to a `Connect`: the opcode, then the identity as four little-endian bytes.
pub open spec fn connect_reply(id: u32) -> Seq<u8> {
    framed(Opcode::ClientConnected, spec_u32_to_le_bytes(id))
}

/// The notice sent to a peer that is disconnected; it is the last message to it.
pub open spec fn disconnect_notice() -> Seq<u8> {
    framed(Opcode::ClientDisconnected, Seq::empty())
}

/// Any message from a connected peer refreshes its liveness record.
pub open spec fn touch(m: SessionModel, addr: Seq<char>, now: u64) -> SessionModel {
    match find_client(m.clients, addr) {
        Some(i) => SessionModel {
            clients: m.clients.update(
                i,
                ClientModel { last_activity: now, ..m.clients[i] },
            ),
            ..m
        },
        None => m,
    }
}

/// A `Connect` from `addr`: a new peer gets the next identity, a record, a reply on
/// the control channel and a `ClientConnected` event; a connected peer is only
/// refreshed. Once every identity is spent, new peers are turned away.
pub open spec fn connect_step(m: SessionModel, addr: Seq<char>, now: u64) -> (
    SessionModel,
    Seq<OutgoingModel>,
) {
    if find_client(m.clients, addr) is Some {
        (touch(m, addr, now), Seq::empty())
    } else if m.next_id > u32::MAX as nat {
        (m, Seq::empty())
    } else {
        let id = m.next_id as u32;
        (
            SessionModel {
                clients: m.clients.push(ClientModel { addr, id, last_activity: now }),
                next_id: m.next_id + 1,
                events: m.events.push(EventModel::ClientConnected(id)),
            },
            seq![
                OutgoingModel {
                    addr,
                    bytes: connect_reply(id),
                    reliability: Reliability::ReliableOrdered(0),
                    close: false,
                },
            ],
        )
    }
}

/// The disconnect path of `addr`: its record goes, a notice is sent (best effort)
/// and a `ClientDisconnected` event is emitted. Nothing happens for an unknown peer.
pub open spec fn drop_step(m: SessionModel, addr: Seq<char>) -> (
    SessionModel,
    Seq<OutgoingModel>,
) {
    match find_client(m.clients, addr) {
        Some(i) => (
            SessionModel {
                clients: m.clients.remove(i),
                events: m.events.push(EventModel::ClientDisconnected(m.clients[i].id)),
                ..m
            },
            seq![
                OutgoingModel {
                    addr,
                    bytes: disconnect_notice(),
                    reliability: Reliability::Unreliable,
                    close: true,
                },
            ],
        ),
        None => (m, Seq::empty()),
    }
}

/// The inbound messages `msgs` (sender address and bytes) handled in order at `now`.
pub open spec fn run_messages(m: SessionModel, msgs: Seq<(Seq<char>, Seq<u8>)>, now: u64) -> SessionModel
    decreases msgs.len(),
{
    if msgs.len() == 0 {
        m
    } else {
        let last = msgs.last();
        message_step(run_messages(m, msgs.drop_last(), now), last.0, last.1, now).0
    }
}

/// The disconnect path run for each of `addrs`, in order.
pub open spec fn drop_all(m: SessionModel, addrs: Seq<Seq<char>>) -> SessionModel
    decreases addrs.len(),
{
    if addrs.len() == 0 {
        m
    } else {
        drop_step(drop_all(m, addrs.drop_last()), addrs.last()).0
    }
}

/// The addresses of the records, in order.
pub open spec fn client_addr_seq(clients: Seq<ClientModel>) -> Seq<Seq<char>> {
    clients.map_values(|c: ClientModel| c.addr)
}

/// The addresses among `addrs` whose send (the outcome at the same index) failed,
/// in order.
pub open spec fn failed_addrs(addrs: Seq<Seq<char>>, results: Seq<Result<(), TransportError>>) -> Seq<
    Seq<char>,
>
    decreases addrs.len(),
{
    if addrs.len() == 0 || results.len() == 0 {
        Seq::empty()
    } else {
        let r = failed_addrs(addrs.drop_last(), results.drop_last());
        if results.last() is Err {
            r.push(addrs.last())
        } else {
            r
        }
    }
}

/// When every send succeeded, nobody is disconnected.
pub proof fn lemma_no_failures(addrs: Seq<Seq<char>>, results: Seq<Result<(), TransportError>>)
    requires
        forall|i: int| 0 <= i < results.len() ==> (#[trigger] results[i]) is Ok,
    ensures
        failed_addrs(addrs, results) == Seq::<Seq<char>>::empty(),
    decreases addrs.len(),
{
    if addrs.len() > 0 && results.len() > 0 {
        let rd = results.drop_last();
        assert forall|i: int| 0 <= i < rd.len() implies (#[trigger] rd[i]) is Ok by {
            assert(rd[i] == results[i]);
        }
        lemma_no_failures(addrs.drop_last(), rd);
        assert(results[results.len() - 1] is Ok);
    }
}

/// One more disconnect after a series of them.
pub proof fn lemma_drop_all_push(m: SessionModel, addrs: Seq<Seq<char>>, a: Seq<char>)
    ensures
        drop_all(m, addrs.push(a)) == drop_step(drop_all(m, addrs), a).0,
{
    assert(addrs.push(a).drop_last() =~= addrs);
}

/// A peer is silent for too long when more than `timeout` milliseconds passed since
/// its last message.
pub open spec fn is_expired(c: ClientModel, now: u64, timeout: u64) -> bool {
    now as int - c.last_activity as int > timeout as int
}

/// Splits the records into those that stay and those that expired, keeping order.
pub open spec fn evict(clients: Seq<ClientModel>, now: u64, timeout: u64) -> (
    Seq<ClientModel>,
    Seq<ClientModel>,
)
    decreases clients.len(),
{
    if clients.len() == 0 {
        (Seq::empty(), Seq::empty())
    } else {
        let r = evict(clients.drop_first(), now, timeout);
        if is_expired(clients[0], now, timeout) {
            (r.0, seq![clients[0]] + r.1)
        } else {
            (seq![clients[0]] + r.0, r.1)
        }
    }
}

/// The liveness sweep at `now`: every expired peer goes down the disconnect path,
/// in order of connection.
pub open spec fn evict_step(m: SessionModel, now: u64, timeout: u64) -> (
    SessionModel,
    Seq<OutgoingModel>,
) {
    let r = evict(m.clients, now, timeout);
    (
        SessionModel {
            clients: r.0,
            events: m.events + r.1.map_values(|c: ClientModel| EventModel::ClientDisconnected(c.id)),
            ..m
        },
        r.1.map_values(
            |c: ClientModel|
                OutgoingModel {
                    addr: c.addr,
                    bytes: disconnect_notice(),
                    reliability: Reliability::Unreliable,
                    close: true,
                },
        ),
    )
}

/// One inbound message from `addr` at `now`. An empty message is the transport's
/// close signal. Otherwise the sender, if connected, is refreshed, and the opcode
/// decides: `Connect`, `Disconnect`, or `Data`, which a connected peer turns into a
/// `MessageReceived` event (an empty payload is ignored, as is data from an unknown
/// address or a message with an unknown opcode).
pub open spec fn message_step(m: SessionModel, addr: Seq<char>, bytes: Seq<u8>, now: u64) -> (
    SessionModel,
    Seq<OutgoingModel>,
) {
    if bytes.len() == 0 {
        drop_step(m, addr)
    } else {
        let t = touch(m, addr, now);
        match spec_unframe(bytes) {
            None => (t, Seq::empty()),
            Some((Opcode::ClientConnected, _)) => connect_step(t, addr, now),
            Some((Opcode::ClientDisconnected, _)) => drop_step(t, addr),
            Some((Opcode::Message, payload)) => match find_client(t.clients, addr) {
                Some(i) => if payload.len() > 0 {
                    (
                        SessionModel {
                            events: t.events.push(
                                EventModel::MessageReceived(t.clients[i].id, payload),
                            ),
                            ..t
                        },
                        Seq::empty(),
                    )
                } else {
                    (t, Seq::empty())
                },
                None => (t, Seq::empty()),
            },
        }
    }
}

// ---------------------------------------------------------------------------
// The server
// ---------------------------------------------------------------------------

/// The notice sent to a peer that is disconnected.
fn make_notice(addr: &str) -> (r: Outgoing)
    ensures
        r@ == (OutgoingModel {
            addr: addr@,
            bytes: disconnect_notice(),
            reliability: Reliability::Unreliable,
            close: true,
        }),
{
    let empty: Vec<u8> = Vec::new();
    let bytes = Opcode::ClientDisconnected.with_bytes(empty.as_slice());
    proof {
        assert(empty@ =~= Seq::<u8>::empty());
    }
    Outgoing { addr: addr.to_owned(), bytes, reliability: Reliability::Unreliable, close: true }
}

/// The server session state machine over a transport.
pub struct Server<T: Transport> {
    transport: T,
    config: ServerConfig,
    clients: Vec<ClientData>,
    next_id: u64,
    events: VecDeque<ServerEvent>,
    clock: Clock,
}

impl<T: Transport> Server<T> {
    /// The settings the server was made with.
    pub closed spec fn settings(&self) -> ServerConfig {
        self.config
    }

    /// The sessions as the model sees them.
    pub closed spec fn model(&self) -> SessionModel {
        SessionModel {
            clients: clients_view(self.clients@),
            next_id: self.next_id as nat,
            events: events_view(self.events@),
        }
    }

    pub open spec fn wf(&self) -> bool {
        sessions_wf(self.model())
    }

    pub fn new(transport: T, config: ServerConfig) -> (r: Self)
        ensures
            r.wf(),
            r.settings() == config,
            r.model() == (SessionModel {
                clients: Seq::empty(),
                next_id: 1,
                events: Seq::empty(),
            }),
    {
        let r = Server {
            transport,
            config,
            clients: Vec::new(),
            next_id: 1,
            events: VecDeque::new(),
            clock: Clock::start(),
        };
        proof {
            assert(clients_view(r.clients@) =~= Seq::empty());
            assert(events_view(r.events@) =~= Seq::empty());
        }
        r
    }

    /// The medium underneath.
    pub fn transport(&self) -> &T {
        &self.transport
    }

    /// The settings the server was made with.
    pub fn config(&self) -> (r: ServerConfig)
        ensures
            r == self.settings(),
    {
        self.config
    }

    /// The liveness records of the connected peers, in order of connection.
    pub fn clients(&self) -> (r: &Vec<ClientData>)
        ensures
            clients_view(r@) == self.model().clients,
    {
        &self.clients
    }

    /// The index of the record of `addr`, if that peer is connected.
    fn find_client_index(&self, addr: &str) -> (r: Option<usize>)
        requires
            self.wf(),
        ensures
            match r {
                Some(i) => find_client(self.model().clients, addr@) == Some(i as int),
                None => find_client(self.model().clients, addr@) is None,
            },
    {
        let key = addr.to_owned();
        let mut i: usize = 0;
        while i < self.clients.len()
            invariant
                self.wf(),
                i <= self.clients@.len(),
                key@ == addr@,
                forall|j: int| 0 <= j < i ==> #[trigger] self.model().clients[j].addr != addr@,
            decreases self.clients@.len() - i,
        {
            if self.clients[i].addr == key {
                proof {
                    let cs = self.model().clients;
                    let ii = i as int;
                    assert(cs[ii] == self.clients@[ii]@);
                    let c = choose|j: int| 0 <= j < cs.len() && #[trigger] cs[j].addr == addr@;
                    if c != ii {
                        assert(cs[c].addr != cs[ii].addr);
                    }
                }
                return Some(i);
            }
            proof {
                assert(self.model().clients[i as int] == self.clients@[i as int]@);
            }
            i = i + 1;
        }
        None
    }

    /// The identity of the peer at `addr`, if it is connected.
    pub fn client_id_for(&self, addr: &str) -> (r: Option<u32>)
        requires
            self.wf(),
        ensures
            match find_client(self.model().clients, addr@) {
                Some(i) => r == Some(self.model().clients[i].id),
                None => r is None,
            },
    {
        match self.find_client_index(addr) {
            Some(i) => Some(self.clients[i].id),
            None => None,
        }
    }

    /// The address of the connected peer of identity `id`, if any.
    pub fn client_addr_for(&self, id: u32) -> (r: Option<String>)
        requires
            self.wf(),
        ensures
            match r {
                Some(a) => exists|i: int|
                    0 <= i < self.model().clients.len() && #[trigger] self.model().clients[i].id
                        == id && self.model().clients[i].addr == a@,
                None => forall|i: int|
                    0 <= i < self.model().clients.len() ==> #[trigger] self.model().clients[i].id
                        != id,
            },
    {
        let mut i: usize = 0;
        while i < self.clients.len()
            invariant
                i <= self.clients@.len(),
                forall|j: int| 0 <= j < i ==> #[trigger] self.model().clients[j].id != id,
            decreases self.clients@.len() - i,
        {
            proof {
                assert(self.model().clients[i as int] == self.clients@[i as int]@);
            }
            if self.clients[i].id == id {
                let a = self.clients[i].addr.clone();
                proof {
                    assert(self.model().clients[i as int] == self.clients@[i as int]@);
                    assert(self.model().clients[i as int].id == id);
                    assert(self.model().clients[i as int].addr == a@);
                }
                return Some(a);
            }
            i = i + 1;
        }
        None
    }

    /// Refreshes the liveness record of `addr`, if that peer is connected.
    fn touch_client(&mut self, addr: &str, now: u64)
        requires
            old(self).wf(),
        ensures
            final(self).wf(),
            final(self).model() == touch(old(self).model(), addr@, now),
            final(self).settings() == old(self).settings(),
    {
        match self.find_client_index(addr) {
            Some(i) => {
                let mut c = self.clients.remove(i);
                c.last_activity = now;
                self.clients.insert(i, c);
                proof {
                    let m = old(self).model();
                    assert(clients_view(self.clients@) =~= m.clients.update(
                        i as int,
                        ClientModel { last_activity: now, ..m.clients[i as int] },
                    ));
                    assert(self.model() == touch(m, addr@, now));
                    let cs = self.model().clients;
                    assert forall|a: int, b: int|
                        0 <= a < cs.len() && 0 <= b < cs.len() && a != b implies cs[a].addr
                        != cs[b].addr && cs[a].id != cs[b].id by {
                        assert(cs[a].addr == m.clients[a].addr && cs[a].id == m.clients[a].id);
                        assert(cs[b].addr == m.clients[b].addr && cs[b].id == m.clients[b].id);
                    }
                    assert forall|a: int| 0 <= a < cs.len() implies (#[trigger] cs[a]).id
                        < self.next_id by {
                        assert(cs[a].id == m.clients[a].id);
                    }
                }
            },
            None => {},
        }
    }

    /// Handles a `Connect` from `addr` at `now` (see `connect_step`); returns what to send.
    pub fn add_client(&mut self, addr: &str, now: u64) -> (r: Vec<Outgoing>)
        requires
            old(self).wf(),
        ensures
            final(self).wf(),
            final(self).settings() == old(self).settings(),
            (final(self).model(), outgoing_view(r@)) == connect_step(old(self).model(), addr@, now),
    {
        let m = Ghost(self.model());
        if self.find_client_index(addr).is_some() {
            self.touch_client(addr, now);
            let out: Vec<Outgoing> = Vec::new();
            proof {
                assert(outgoing_view(out@) =~= Seq::empty());
            }
            return out;
        }
        if self.next_id > 0xffff_ffffu64 {
            let out: Vec<Outgoing> = Vec::new();
            proof {
                assert(outgoing_view(out@) =~= Seq::empty());
            }
            return out;
        }
        let id = self.next_id as u32;
        let c = ClientData { addr: addr.to_owned(), id, last_activity: now };
        self.clients.push(c);
        self.next_id = self.next_id + 1;
        self.events.push_back(ServerEvent::ClientConnected(id));
        let idb = u32_to_le_bytes(id);
        let reply = Outgoing {
            addr: addr.to_owned(),
            bytes: Opcode::ClientConnected.with_bytes(idb.as_slice()),
            reliability: Reliability::ReliableOrdered(0),
            close: false,
        };
        let mut out: Vec<Outgoing> = Vec::new();
        out.push(reply);
        proof {
            let m = m@;
            assert(clients_view(self.clients@) =~= m.clients.push(c@));
            assert(events_view(self.events@) =~= m.events.push(EventModel::ClientConnected(id)));
            assert(outgoing_view(out@) =~= seq![reply@]);
            let cs = self.model().clients;
            let n = m.clients.len();
            assert forall|a: int, b: int|
                0 <= a < cs.len() && 0 <= b < cs.len() && a != b implies cs[a].addr != cs[b].addr
                && cs[a].id != cs[b].id by {
                if a < n && b < n {
                    assert(cs[a] == m.clients[a] && cs[b] == m.clients[b]);
                } else if a < n {
                    assert(cs[a] == m.clients[a]);
                    assert(m.clients[a].addr != addr@);
                    assert(m.clients[a].id < m.next_id);
                } else {
                    assert(cs[b] == m.clients[b]);
                    assert(m.clients[b].addr != addr@);
                    assert(m.clients[b].id < m.next_id);
                }
            }
            assert forall|a: int| 0 <= a < cs.len() implies (#[trigger] cs[a]).id < self.next_id by {
                if a < n {
                    assert(cs[a] == m.clients[a]);
                }
            }
        }
        out
    }

    /// The disconnect path of `addr` (see `drop_step`); returns what to send.
    pub fn drop_client(&mut self, addr: &str) -> (r: Vec<Outgoing>)
        requires
            old(self).wf(),
        ensures
            final(self).wf(),
            final(self).settings() == old(self).settings(),
            (final(self).model(), outgoing_view(r@)) == drop_step(old(self).model(), addr@),
    {
        let m = Ghost(self.model());
        match self.find_client_index(addr) {
            Some(i) => {
                let c = self.clients.remove(i);
                self.events.push_back(ServerEvent::ClientDisconnected(c.id));
                let mut out: Vec<Outgoing> = Vec::new();
                let notice = make_notice(addr);
                out.push(notice);
                proof {
                    let m = m@;
                    assert(c@ == m.clients[i as int]);
                    assert(clients_view(self.clients@) =~= m.clients.remove(i as int));
                    assert(events_view(self.events@) =~= m.events.push(
                        EventModel::ClientDisconnected(c.id),
                    ));
                    assert(outgoing_view(out@) =~= seq![notice@]);
                    let cs = self.model().clients;
                    assert forall|a: int, b: int|
                        0 <= a < cs.len() && 0 <= b < cs.len() && a != b implies cs[a].addr
                        != cs[b].addr && cs[a].id != cs[b].id by {
                        let a0 = if a < i { a } else { a + 1 };
                        let b0 = if b < i { b } else { b + 1 };
                        assert(cs[a] == m.clients[a0] && cs[b] == m.clients[b0]);
                    }
                    assert forall|a: int| 0 <= a < cs.len() implies (#[trigger] cs[a]).id
                        < self.next_id by {
                        let a0 = if a < i { a } else { a + 1 };
                        assert(cs[a] == m.clients[a0]);
                    }
                }
                out
            },
            None => {
                let out: Vec<Outgoing> = Vec::new();
                proof {
                    assert(outgoing_view(out@) =~= Seq::empty());
                }
                out
            },
        }
    }

    /// The liveness sweep at `now` (see `evict_step`); returns what to send.
    pub fn drop_inactive_clients(&mut self, now: u64) -> (r: Vec<Outgoing>)
        requires
            old(self).wf(),
        ensures
            final(self).wf(),
            final(self).settings() == old(self).settings(),
            (final(self).model(), outgoing_view(r@)) == evict_step(
                old(self).model(),
                now,
                old(self).settings().client_timeout_ms,
            ),
    {
        let timeout = self.config.client_timeout_ms;
        let ghost m = self.model();
        let ghost all = evict(m.clients, now, timeout);
        let mut rest: Vec<ClientData> = Vec::new();
        std::mem::swap(&mut rest, &mut self.clients);
        let mut kept: Vec<ClientData> = Vec::new();
        let mut out: Vec<Outgoing> = Vec::new();
        let ghost mut dropped: Seq<ClientModel> = Seq::empty();
        proof {
            assert(clients_view(kept@) + evict(clients_view(rest@), now, timeout).0 =~= all.0);
            assert(dropped + evict(clients_view(rest@), now, timeout).1 =~= all.1);
            assert(events_view(self.events@) =~= m.events + dropped.map_values(
                |c: ClientModel| EventModel::ClientDisconnected(c.id),
            ));
            assert(outgoing_view(out@) =~= dropped.map_values(
                |c: ClientModel|
                    OutgoingModel {
                        addr: c.addr,
                        bytes: disconnect_notice(),
                        reliability: Reliability::Unreliable,
                        close: true,
                    },
            ));
        }
        while rest.len() > 0
            invariant
                self.config == old(self).config,
                timeout == self.config.client_timeout_ms,
                self.next_id == old(self).next_id,
                m == old(self).model(),
                all == evict(m.clients, now, timeout),
                clients_view(kept@) + evict(clients_view(rest@), now, timeout).0 == all.0,
                dropped + evict(clients_view(rest@), now, timeout).1 == all.1,
                events_view(self.events@) == m.events + dropped.map_values(
                    |c: ClientModel| EventModel::ClientDisconnected(c.id),
                ),
                outgoing_view(out@) == dropped.map_values(
                    |c: ClientModel|
                        OutgoingModel {
                            addr: c.addr,
                            bytes: disconnect_notice(),
                            reliability: Reliability::Unreliable,
                            close: true,
                        },
                ),
            decreases rest.len(),
        {
            let ghost before = rest@;
            let ghost k0 = clients_view(kept@);
            let ghost e0 = events_view(self.events@);
            let ghost o0 = outgoing_view(out@);
            let c = rest.remove(0);
            proof {
                assert(clients_view(rest@) =~= clients_view(before).drop_first());
                assert(clients_view(before)[0] == c@);
            }
            let expired = now > c.last_activity && now - c.last_activity > timeout;
            if expired {
                self.events.push_back(ServerEvent::ClientDisconnected(c.id));
                let notice = make_notice(c.addr.as_str());
                out.push(notice);
                proof {
                    let d0 = dropped;
                    dropped = dropped.push(c@);
                    let ev = evict(clients_view(rest@), now, timeout);
                    assert(d0 + (seq![c@] + ev.1) =~= dropped + ev.1);
                    assert(events_view(self.events@) =~= e0.push(EventModel::ClientDisconnected(c.id)));
                    assert(dropped.map_values(|c: ClientModel| EventModel::ClientDisconnected(c.id))
                        =~= d0.map_values(|c: ClientModel| EventModel::ClientDisconnected(c.id)).push(
                        EventModel::ClientDisconnected(c.id),
                    ));
                    assert(outgoing_view(out@) =~= o0.push(notice@));
                    assert(dropped.map_values(
                        |c: ClientModel|
                            OutgoingModel {
                                addr: c.addr,
                                bytes: disconnect_notice(),
                                reliability: Reliability::Unreliable,
                                close: true,
                            },
                    ) =~= d0.map_values(
                        |c: ClientModel|
                            OutgoingModel {
                                addr: c.addr,
                                bytes: disconnect_notice(),
                                reliability: Reliability::Unreliable,
                                close: true,
                            },
                    ).push(notice@));
                }
            } else {
                kept.push(c);
                proof {
                    let ev = evict(clients_view(rest@), now, timeout);
                    assert(clients_view(kept@) =~= k0.push(c@));
                    assert(k0 + (seq![c@] + ev.0) =~= k0.push(c@) + ev.0);
                }
            }
        }
        self.clients = kept;
        proof {
            assert(clients_view(Seq::<ClientData>::empty()) =~= Seq::empty());
            assert(clients_view(self.clients@) + Seq::empty() =~= clients_view(self.clients@));
            assert(dropped + Seq::empty() =~= dropped);
            lemma_evict_wf(m, now, timeout);
        }
        out
    }

    /// Handles one inbound message from `addr` at `now` (see `message_step`);
    /// returns what to send.
    pub fn handle_message(&mut self, addr: &str, bytes: &[u8], now: u64) -> (r: Vec<Outgoing>)
        requires
            old(self).wf(),
        ensures
            final(self).wf(),
            final(self).settings() == old(self).settings(),
            (final(self).model(), outgoing_view(r@)) == message_step(
                old(self).model(),
                addr@,
                bytes@,
                now,
            ),
    {
        if bytes.len() == 0 {
            return self.drop_client(addr);
        }
        self.touch_client(addr, now);
        match unframe(bytes) {
            None => {
                let out: Vec<Outgoing> = Vec::new();
                proof {
                    assert(outgoing_view(out@) =~= Seq::empty());
                }
                out
            },
            Some((Opcode::ClientConnected, _)) => self.add_client(addr, now),
            Some((Opcode::ClientDisconnected, _)) => self.drop_client(addr),
            Some((Opcode::Message, payload)) => {
                let out: Vec<Outgoing> = Vec::new();
                proof {
                    assert(outgoing_view(out@) =~= Seq::empty());
                }
                match self.find_client_index(addr) {
                    Some(i) => {
                        if payload.len() > 0 {
                            let id = self.clients[i].id;
                            let ghost e0 = events_view(self.events@);
                            let ghost pv = payload@;
                            self.events.push_back(ServerEvent::MessageReceived(id, payload));
                            proof {
                                assert(self.model().clients[i as int] == self.clients@[i as int]@);
                                assert(events_view(self.events@) =~= e0.push(
                                    EventModel::MessageReceived(id, pv),
                                ));
                            }
                        }
                        out
                    },
                    None => out,
                }
            },
        }
    }

    /// Puts the messages decided by the state machine on the wire, and closes the
    /// peers they end. They are control messages and sent best effort: a failure is
    /// ignored.
    fn transmit(&mut self, out: Vec<Outgoing>)
        ensures
            final(self).model() == old(self).model(),
            final(self).settings() == old(self).settings(),
    {
        let mut i: usize = 0;
        while i < out.len()
            invariant
                self.model() == old(self).model(),
                self.config == old(self).config,
            decreases out@.len() - i,
        {
            let o = &out[i];
            let _ = self.transport.send_to(o.addr.as_str(), o.bytes.as_slice(), o.reliability);
            if o.close {
                self.transport.close(o.addr.as_str());
            }
            i = i + 1;
        }
    }

    /// One tick at time `now`: drives the transport's own poll, runs the liveness
    /// sweep, then handles the inbound messages available (at most
    /// `MAX_INBOUND_PER_POLL`), queueing the resulting events. Which messages were
    /// available is up to the transport.
    pub fn poll_at(&mut self, now: u64)
        requires
            old(self).wf(),
        ensures
            final(self).wf(),
            final(self).settings() == old(self).settings(),
            final(self).model().next_id >= old(self).model().next_id,
            exists|msgs: Seq<(Seq<char>, Seq<u8>)>|
                msgs.len() <= MAX_INBOUND_PER_POLL && final(self).model() == run_messages(
                    evict_step(old(self).model(), now, old(self).settings().client_timeout_ms).0,
                    msgs,
                    now,
                ),
    {
        self.transport.poll();
        let out = self.drop_inactive_clients(now);
        self.transmit(out);
        let ghost swept = self.model();
        proof {
            assert(run_messages(swept, Seq::empty(), now) == swept);
        }
        let ghost mut msgs: Seq<(Seq<char>, Seq<u8>)> = Seq::empty();
        let mut n: usize = 0;
        let mut done = false;
        while !done && n < MAX_INBOUND_PER_POLL
            invariant
                self.wf(),
                self.config == old(self).config,
                self.next_id >= old(self).next_id,
                msgs.len() <= n,
                n <= MAX_INBOUND_PER_POLL,
                swept == evict_step(old(self).model(), now, old(self).settings().client_timeout_ms).0,
                self.model() == run_messages(swept, msgs, now),
            decreases MAX_INBOUND_PER_POLL - n,
        {
            match self.transport.recv() {
                Some((addr, bytes)) => {
                    let ghost m0 = self.model();
                    let out = self.handle_message(addr.as_str(), bytes.as_slice(), now);
                    proof {
                        lemma_message_step_wf(m0, addr@, bytes@, now);
                    }
                    self.transmit(out);
                    proof {
                        let prev = msgs;
                        msgs = msgs.push((addr@, bytes@));
                        assert(msgs.drop_last() =~= prev);
                    }
                },
                None => {
                    done = true;
                },
            }
            n = n + 1;
        }
    }

    /// One tick at the current time (see `poll_at`).
    pub fn poll(&mut self)
        requires
            old(self).wf(),
        ensures
            final(self).wf(),
            final(self).settings() == old(self).settings(),
            final(self).model().next_id >= old(self).model().next_id,
            exists|now: u64, msgs: Seq<(Seq<char>, Seq<u8>)>|
                msgs.len() <= MAX_INBOUND_PER_POLL && final(self).model() == run_messages(
                    evict_step(old(self).model(), now, old(self).settings().client_timeout_ms).0,
                    msgs,
                    now,
                ),
    {
        let now = self.clock.now_ms();
        self.poll_at(now);
    }

    /// The oldest event not yet drained.
    pub fn recv_event(&mut self) -> (r: Option<ServerEvent>)
        requires
            old(self).wf(),
        ensures
            final(self).wf(),
            final(self).settings() == old(self).settings(),
            final(self).model().clients == old(self).model().clients,
            final(self).model().next_id == old(self).model().next_id,
            old(self).model().events.len() == 0 ==> r is None && final(self).model().events
                == old(self).model().events,
            old(self).model().events.len() > 0 ==> (r matches Some(e) && e@ == old(
                self,
            ).model().events[0] && final(self).model().events == old(self).model().events.drop_first()),
    {
        let r = self.events.pop_front();
        proof {
            assert(self.model().clients == old(self).model().clients);
            assert(sessions_wf(old(self).model()));
            if old(self).events@.len() > 0 {
                assert(events_view(self.events@) =~= events_view(old(self).events@).drop_first());
            }
        }
        r
    }

    /// What a send's outcome does to the sessions: a failed delivery to `addr` takes
    /// that peer down the disconnect path.
    pub fn on_send_result(&mut self, addr: &str, result: Result<(), TransportError>)
        requires
            old(self).wf(),
        ensures
            final(self).wf(),
            final(self).settings() == old(self).settings(),
            result is Ok ==> final(self).model() == old(self).model(),
            result is Err ==> final(self).model() == drop_step(old(self).model(), addr@).0,
    {
        if result.is_err() {
            let out = self.drop_client(addr);
            self.transmit(out);
        }
    }

    /// Sends `bytes` as data to `addr`; a delivery failure disconnects that peer.
    pub fn send_to(&mut self, addr: &str, bytes: &[u8], reliability: Reliability) -> (r: Result<
        (),
        TransportError,
    >)
        requires
            old(self).wf(),
        ensures
            final(self).wf(),
            final(self).settings() == old(self).settings(),
            r is Ok ==> final(self).model() == old(self).model(),
            r is Err ==> final(self).model() == drop_step(old(self).model(), addr@).0,
    {
        let msg = Opcode::Message.with_bytes(bytes);
        let r = self.transport.send_to(addr, msg.as_slice(), reliability);
        self.on_send_result(addr, r);
        r
    }

    /// The addresses of the connected peers, in order of connection.
    pub fn client_addrs(&self) -> (r: Vec<String>)
        ensures
            r@.len() == self.model().clients.len(),
            forall|i: int| 0 <= i < r@.len() ==> #[trigger] r@[i]@ == self.model().clients[i].addr,
    {
        let mut out: Vec<String> = Vec::new();
        let mut i: usize = 0;
        while i < self.clients.len()
            invariant
                i <= self.clients@.len(),
                out@.len() == i,
                forall|j: int| 0 <= j < i ==> #[trigger] out@[j]@ == self.model().clients[j].addr,
            decreases self.clients@.len() - i,
        {
            out.push(self.clients[i].addr.clone());
            proof {
                assert(self.model().clients[i as int] == self.clients@[i as int]@);
            }
            i = i + 1;
        }
        out
    }

    /// Sends `bytes` as data to every connected peer, in order of connection, and
    /// returns each send's outcome. Exactly the peers whose delivery failed are
    /// disconnected, in that order.
    pub fn broadcast(&mut self, bytes: &[u8], reliability: Reliability) -> (r: Vec<Result<(), TransportError>>)
        requires
            old(self).wf(),
        ensures
            final(self).wf(),
            final(self).settings() == old(self).settings(),
            r@.len() == old(self).model().clients.len(),
            final(self).model() == drop_all(
                old(self).model(),
                failed_addrs(client_addr_seq(old(self).model().clients), r@),
            ),
            (forall|i: int| 0 <= i < r@.len() ==> (#[trigger] r@[i]) is Ok) ==> (final(self).model()
                == old(self).model()),
    {
        let msg = Opcode::Message.with_bytes(bytes);
        let addrs = self.client_addrs();
        let ghost av = client_addr_seq(old(self).model().clients);
        let mut results: Vec<Result<(), TransportError>> = Vec::new();
        let mut i: usize = 0;
        proof {
            assert(av.subrange(0, 0) =~= Seq::<Seq<char>>::empty());
        }
        while i < addrs.len()
            invariant
                self.wf(),
                self.settings() == old(self).settings(),
                i <= addrs@.len(),
                addrs@.len() == av.len(),
                forall|j: int| 0 <= j < addrs@.len() ==> #[trigger] addrs@[j]@ == av[j],
                results@.len() == i,
                self.model() == drop_all(
                    old(self).model(),
                    failed_addrs(av.subrange(0, i as int), results@),
                ),
            decreases addrs@.len() - i,
        {
            let a = &addrs[i];
            let r = self.transport.send_to(a.as_str(), msg.as_slice(), reliability);
            let ghost f0 = failed_addrs(av.subrange(0, i as int), results@);
            let ghost res0 = results@;
            self.on_send_result(a.as_str(), r);
            results.push(r);
            proof {
                let sub = av.subrange(0, i + 1);
                assert(sub.drop_last() =~= av.subrange(0, i as int));
                assert(results@.drop_last() =~= res0);
                assert(sub.last() == a@);
                if r is Err {
                    lemma_drop_all_push(old(self).model(), f0, a@);
                }
            }
            i = i + 1;
        }
        proof {
            assert(av.subrange(0, av.len() as int) =~= av);
            if forall|j: int| 0 <= j < results@.len() ==> (#[trigger] results@[j]) is Ok {
                lemma_no_failures(av, results@);
            }
        }
        results
    }
}

impl<T: Transport + ReliableTransport> Server<T> {
    /// Sends `bytes` as data to `addr` through the medium's own reliability; a
    /// delivery failure disconnects that peer.
    pub fn send_reliable_to(&mut self, addr: &str, bytes: &[u8], ordered: bool) -> (r: Result<
        (),
        TransportError,
    >)
        requires
            old(self).wf(),
        ensures
            final(self).wf(),
            final(self).settings() == old(self).settings(),
            r is Ok ==> final(self).model() == old(self).model(),
            r is Err ==> final(self).model() == drop_step(old(self).model(), addr@).0,
    {
        let msg = Opcode::Message.with_bytes(bytes);
        let r = self.transport.send_reliable_to(addr, msg.as_slice(), ordered);
        self.on_send_result(addr, r);
        r
    }

    /// Sends `bytes` as data to every connected peer through the medium's own
    /// reliability, in order of connection, and returns each send's outcome. Exactly
    /// the peers whose delivery failed are disconnected, in that order.
    pub fn broadcast_reliable(&mut self, bytes: &[u8], ordered: bool) -> (r: Vec<Result<(), TransportError>>)
        requires
            old(self).wf(),
        ensures
            final(self).wf(),
            final(self).settings() == old(self).settings(),
            r@.len() == old(self).model().clients.len(),
            final(self).model() == drop_all(
                old(self).model(),
                failed_addrs(client_addr_seq(old(self).model().clients), r@),
            ),
            (forall|i: int| 0 <= i < r@.len() ==> (#[trigger] r@[i]) is Ok) ==> (final(self).model()
                == old(self).model()),
    {
        let msg = Opcode::Message.with_bytes(bytes);
        let addrs = self.client_addrs();
        let ghost av = client_addr_seq(old(self).model().clients);
        let mut results: Vec<Result<(), TransportError>> = Vec::new();
        let mut i: usize = 0;
        proof {
            assert(av.subrange(0, 0) =~= Seq::<Seq<char>>::empty());
        }
        while i < addrs.len()
            invariant
                self.wf(),
                self.settings() == old(self).settings(),
                i <= addrs@.len(),
                addrs@.len() == av.len(),
                forall|j: int| 0 <= j < addrs@.len() ==> #[trigger] addrs@[j]@ == av[j],
                results@.len() == i,
                self.model() == drop_all(
                    old(self).model(),
                    failed_addrs(av.subrange(0, i as int), results@),
                ),
            decreases addrs@.len() - i,
        {
            let a = &addrs[i];
            let r = self.transport.send_reliable_to(a.as_str(), msg.as_slice(), ordered);
            let ghost f0 = failed_addrs(av.subrange(0, i as int), results@);
            let ghost res0 = results@;
            self.on_send_result(a.as_str(), r);
            results.push(r);
            proof {
                let sub = av.subrange(0, i + 1);
                assert(sub.drop_last() =~= av.subrange(0, i as int));
                assert(results@.drop_last() =~= res0);
                assert(sub.last() == a@);
                if r is Err {
                    lemma_drop_all_push(old(self).model(), f0, a@);
                }
            }
            i = i + 1;
        }
        proof {
            assert(av.subrange(0, av.len() as int) =~= av);
            if forall|j: int| 0 <= j < results@.len() ==> (#[trigger] results@[j]) is Ok {
                lemma_no_failures(av, results@);
            }
        }
        results
    }
}

/// Addresses and identities are pairwise distinct.
pub open spec fn unique_clients(s: Seq<ClientModel>) -> bool {
    forall|i: int, j: int|
        0 <= i < s.len() && 0 <= j < s.len() && i != j ==> s[i].addr != s[j].addr && s[i].id
            != s[j].id
}

/// The sweep splits the records by expiry: each one lands on exactly the side its
/// expiry says, and distinct records stay distinct.
pub proof fn lemma_evict_parts(clients: Seq<ClientModel>, now: u64, timeout: u64)
    ensures
        ({
            let r = evict(clients, now, timeout);
            &&& forall|a: int|
                0 <= a < r.0.len() ==> clients.contains(#[trigger] r.0[a]) && !is_expired(
                    r.0[a],
                    now,
                    timeout,
                )
            &&& forall|a: int|
                0 <= a < r.1.len() ==> clients.contains(#[trigger] r.1[a]) && is_expired(
                    r.1[a],
                    now,
                    timeout,
                )
            &&& forall|i: int|
                0 <= i < clients.len() && is_expired(#[trigger] clients[i], now, timeout)
                    ==> r.1.contains(clients[i])
            &&& forall|i: int|
                0 <= i < clients.len() && !is_expired(#[trigger] clients[i], now, timeout)
                    ==> r.0.contains(clients[i])
            &&& unique_clients(clients) ==> unique_clients(r.0) && unique_clients(r.1)
        }),
    decreases clients.len(),
{
    if clients.len() > 0 {
        let rest = clients.drop_first();
        lemma_evict_parts(rest, now, timeout);
        let r0 = evict(rest, now, timeout);
        let r = evict(clients, now, timeout);
        let c = clients[0];
        assert forall|x: ClientModel| rest.contains(x) implies clients.contains(x) by {
            let i = choose|i: int| 0 <= i < rest.len() && rest[i] == x;
            assert(clients[i + 1] == x);
        }
        assert forall|i: int|
            0 <= i < clients.len() && is_expired(#[trigger] clients[i], now, timeout) implies r.1.contains(
            clients[i]) by {
            if i == 0 {
                assert(r.1[0] == c);
            } else {
                assert(rest[i - 1] == clients[i]);
                let k = choose|k: int| 0 <= k < r0.1.len() && r0.1[k] == clients[i];
                if is_expired(c, now, timeout) {
                    assert(r.1[k + 1] == clients[i]);
                } else {
                    assert(r.1[k] == clients[i]);
                }
            }
        }
        assert forall|i: int|
            0 <= i < clients.len() && !is_expired(#[trigger] clients[i], now, timeout) implies r.0.contains(
            clients[i]) by {
            if i == 0 {
                assert(r.0[0] == c);
            } else {
                assert(rest[i - 1] == clients[i]);
                let k = choose|k: int| 0 <= k < r0.0.len() && r0.0[k] == clients[i];
                if is_expired(c, now, timeout) {
                    assert(r.0[k] == clients[i]);
                } else {
                    assert(r.0[k + 1] == clients[i]);
                }
            }
        }
        assert forall|a: int| 0 <= a < r.0.len() implies clients.contains(#[trigger] r.0[a])
            && !is_expired(r.0[a], now, timeout) by {
            if !is_expired(c, now, timeout) && a == 0 {
                assert(clients[0] == r.0[a]);
            } else if !is_expired(c, now, timeout) {
                assert(r.0[a] == r0.0[a - 1]);
            } else {
                assert(r.0[a] == r0.0[a]);
            }
        }
        assert forall|a: int| 0 <= a < r.1.len() implies clients.contains(#[trigger] r.1[a])
            && is_expired(r.1[a], now, timeout) by {
            if is_expired(c, now, timeout) && a == 0 {
                assert(clients[0] == r.1[a]);
            } else if is_expired(c, now, timeout) {
                assert(r.1[a] == r0.1[a - 1]);
            } else {
                assert(r.1[a] == r0.1[a]);
            }
        }
        if unique_clients(clients) {
            assert(unique_clients(rest)) by {
                assert forall|i: int, j: int|
                    0 <= i < rest.len() && 0 <= j < rest.len() && i != j implies rest[i].addr
                    != rest[j].addr && rest[i].id != rest[j].id by {
                    assert(rest[i] == clients[i + 1] && rest[j] == clients[j + 1]);
                }
            }
            // the first record differs from every later one
            assert forall|x: ClientModel| rest.contains(x) implies x.addr != c.addr && x.id
                != c.id by {
                let i = choose|i: int| 0 <= i < rest.len() && rest[i] == x;
                assert(clients[i + 1] == x);
            }
            assert forall|a: int| 0 <= a < r0.0.len() implies rest.contains(#[trigger] r0.0[a]) by {}
            assert forall|a: int| 0 <= a < r0.1.len() implies rest.contains(#[trigger] r0.1[a]) by {}
            assert(unique_clients(r.0)) by {
                if !is_expired(c, now, timeout) {
                    assert forall|i: int, j: int|
                        0 <= i < r.0.len() && 0 <= j < r.0.len() && i != j implies r.0[i].addr
                        != r.0[j].addr && r.0[i].id != r.0[j].id by {
                        if i > 0 {
                            assert(r.0[i] == r0.0[i - 1]);
                        }
                        if j > 0 {
                            assert(r.0[j] == r0.0[j - 1]);
                        }
                    }
                }
            }
            assert(unique_clients(r.1)) by {
                if is_expired(c, now, timeout) {
                    assert forall|i: int, j: int|
                        0 <= i < r.1.len() && 0 <= j < r.1.len() && i != j implies r.1[i].addr
                        != r.1[j].addr && r.1[i].id != r.1[j].id by {
                        if i > 0 {
                            assert(r.1[i] == r0.1[i - 1]);
                        }
                        if j > 0 {
                            assert(r.1[j] == r0.1[j - 1]);
                        }
                    }
                }
            }
        }
    }
}

/// The liveness sweep keeps the sessions well formed.
pub proof fn lemma_evict_wf(m: SessionModel, now: u64, timeout: u64)
    requires
        sessions_wf(m),
    ensures
        sessions_wf(evict_step(m, now, timeout).0),
{
    lemma_evict_parts(m.clients, now, timeout);
    let k = evict(m.clients, now, timeout).0;
    assert(unique_clients(m.clients));
    assert forall|a: int| 0 <= a < k.len() implies (#[trigger] k[a]).id < m.next_id by {
        assert(m.clients.contains(k[a]));
    }
}

/// Timeout eviction: a connected peer silent for longer than the timeout is removed
/// at the sweep, which reports its disconnection exactly once; no record of its
/// address or identity is left to be reported again.
pub proof fn lemma_timeout_eviction(m: SessionModel, now: u64, timeout: u64, i: int)
    requires
        sessions_wf(m),
        0 <= i < m.clients.len(),
        is_expired(m.clients[i], now, timeout),
    ensures
        ({
            let r = evict_step(m, now, timeout).0;
            let c = m.clients[i];
            let added = r.events.subrange(m.events.len() as int, r.events.len() as int);
            &&& find_client(r.clients, c.addr) is None
            &&& forall|j: int| 0 <= j < r.clients.len() ==> (#[trigger] r.clients[j]).id != c.id
            &&& r.events.subrange(0, m.events.len() as int) == m.events
            &&& exists|k: int|
                0 <= k < added.len() && added[k] == EventModel::ClientDisconnected(c.id) && forall|
                    k2: int,
                |
                    0 <= k2 < added.len() && k2 != k ==> #[trigger] added[k2]
                        != EventModel::ClientDisconnected(c.id)
        }),
{
    lemma_evict_parts(m.clients, now, timeout);
    let ev = evict(m.clients, now, timeout);
    let r = evict_step(m, now, timeout).0;
    let c = m.clients[i];
    assert(unique_clients(m.clients));
    assert forall|j: int| 0 <= j < r.clients.len() implies (#[trigger] r.clients[j]).id != c.id
        && r.clients[j].addr != c.addr by {
        assert(m.clients.contains(ev.0[j]));
        let q = choose|q: int| 0 <= q < m.clients.len() && m.clients[q] == ev.0[j];
        if q == i {
            assert(!is_expired(m.clients[q], now, timeout));
        }
    }
    if find_client(r.clients, c.addr) is Some {
        let j = choose|j: int| 0 <= j < r.clients.len() && #[trigger] r.clients[j].addr == c.addr;
    }
    let f = |x: ClientModel| EventModel::ClientDisconnected(x.id);
    let added = r.events.subrange(m.events.len() as int, r.events.len() as int);
    assert(added =~= ev.1.map_values(f));
    assert(r.events.subrange(0, m.events.len() as int) =~= m.events);
    assert(ev.1.contains(c));
    let k = choose|k: int| 0 <= k < ev.1.len() && ev.1[k] == c;
    assert(added[k] == EventModel::ClientDisconnected(c.id));
    assert forall|k2: int| 0 <= k2 < added.len() && k2 != k implies #[trigger] added[k2]
        != EventModel::ClientDisconnected(c.id) by {
        assert(added[k2] == EventModel::ClientDisconnected(ev.1[k2].id));
        assert(ev.1[k2].id != ev.1[k].id);
    }
}

/// Refreshing a record keeps the sessions well formed.
pub proof fn lemma_touch_wf(m: SessionModel, addr: Seq<char>, now: u64)
    requires
        sessions_wf(m),
    ensures
        sessions_wf(touch(m, addr, now)),
        touch(m, addr, now).next_id == m.next_id,
        touch(m, addr, now).events == m.events,
        find_client(touch(m, addr, now).clients, addr) == find_client(m.clients, addr),
        touch(m, addr, now).clients.len() == m.clients.len(),
        forall|j: int|
            0 <= j < m.clients.len() ==> (#[trigger] touch(m, addr, now).clients[j]).id
                == m.clients[j].id && touch(m, addr, now).clients[j].addr == m.clients[j].addr,
{
    let t = touch(m, addr, now);
    if let Some(i) = find_client(m.clients, addr) {
        assert forall|j: int| 0 <= j < m.clients.len() implies (#[trigger] t.clients[j]).id
            == m.clients[j].id && t.clients[j].addr == m.clients[j].addr by {}
        assert(t.clients[i].addr == addr);
        if find_client(t.clients, addr) is Some {
            let c = choose|j: int| 0 <= j < t.clients.len() && #[trigger] t.clients[j].addr == addr;
            if c != i {
                assert(m.clients[c].addr == addr);
            }
        }
        assert forall|a: int| 0 <= a < t.clients.len() implies (#[trigger] t.clients[a]).id < t.next_id by {
            assert(t.clients[a].id == m.clients[a].id);
        }
    }
}

/// Identity uniqueness: no inbound message, whatever it holds, gives two connected
/// peers the same identity, nor lets a record outlive the counter it was drawn from;
/// the counter never goes back, so an identity is never reused while running.
pub proof fn lemma_message_step_wf(m: SessionModel, addr: Seq<char>, bytes: Seq<u8>, now: u64)
    requires
        sessions_wf(m),
    ensures
        sessions_wf(message_step(m, addr, bytes, now).0),
        message_step(m, addr, bytes, now).0.next_id >= m.next_id,
{
    if bytes.len() == 0 {
        lemma_drop_wf(m, addr);
    } else {
        lemma_touch_wf(m, addr, now);
        let t = touch(m, addr, now);
        match spec_unframe(bytes) {
            None => {},
            Some((Opcode::ClientConnected, _)) => lemma_connect_wf(t, addr, now),
            Some((Opcode::ClientDisconnected, _)) => lemma_drop_wf(t, addr),
            Some((Opcode::Message, _)) => {},
        }
    }
}

/// A `Connect` keeps the sessions well formed; a new peer's identity differs from
/// every identity in use.
pub proof fn lemma_connect_wf(m: SessionModel, addr: Seq<char>, now: u64)
    requires
        sessions_wf(m),
    ensures
        sessions_wf(connect_step(m, addr, now).0),
        connect_step(m, addr, now).0.next_id >= m.next_id,
{
    if find_client(m.clients, addr) is Some {
        lemma_touch_wf(m, addr, now);
    } else if m.next_id <= u32::MAX as nat {
        let r = connect_step(m, addr, now).0;
        let n = m.clients.len();
        assert forall|a: int, b: int|
            0 <= a < r.clients.len() && 0 <= b < r.clients.len() && a != b implies r.clients[a].addr
            != r.clients[b].addr && r.clients[a].id != r.clients[b].id by {
            if a < n && b < n {
            } else if a < n {
                assert(m.clients[a].addr != addr);
                assert(m.clients[a].id < m.next_id);
            } else {
                assert(m.clients[b].addr != addr);
                assert(m.clients[b].id < m.next_id);
            }
        }
        assert forall|a: int| 0 <= a < r.clients.len() implies (#[trigger] r.clients[a]).id
            < r.next_id by {
            if a < n {
                assert(r.clients[a] == m.clients[a]);
            }
        }
    }
}

/// The disconnect path keeps the sessions well formed.
pub proof fn lemma_drop_wf(m: SessionModel, addr: Seq<char>)
    requires
        sessions_wf(m),
    ensures
        sessions_wf(drop_step(m, addr).0),
        drop_step(m, addr).0.next_id == m.next_id,
{
    if let Some(i) = find_client(m.clients, addr) {
        let r = drop_step(m, addr).0;
        assert forall|a: int, b: int|
            0 <= a < r.clients.len() && 0 <= b < r.clients.len() && a != b implies r.clients[a].addr
            != r.clients[b].addr && r.clients[a].id != r.clients[b].id by {
            let a0 = if a < i { a } else { a + 1 };
            let b0 = if b < i { b } else { b + 1 };
            assert(r.clients[a] == m.clients[a0] && r.clients[b] == m.clients[b0]);
        }
        assert forall|a: int| 0 <= a < r.clients.len() implies (#[trigger] r.clients[a]).id
            < r.next_id by {
            let a0 = if a < i { a } else { a + 1 };
            assert(r.clients[a] == m.clients[a0]);
        }
    }
}

/// No record is left of the peer at `addr` of identity `id`, and the counter has
/// passed `id`, so it is never handed out again.
pub open spec fn gone(m: SessionModel, addr: Seq<char>, id: u32) -> bool {
    &&& (id as nat) < m.next_id
    &&& forall|j: int|
        0 <= j < m.clients.len() ==> (#[trigger] m.clients[j]).addr != addr && m.clients[j].id
            != id
}

/// `after` extends the events of `before` with none that reports `id` disconnected.
pub open spec fn no_new_disconnect(before: Seq<EventModel>, after: Seq<EventModel>, id: u32) -> bool {
    &&& before.len() <= after.len()
    &&& after.subrange(0, before.len() as int) == before
    &&& forall|k: int|
        before.len() <= k < after.len() ==> #[trigger] after[k] != EventModel::ClientDisconnected(
            id,
        )
}

/// A message from another address leaves a gone peer gone and reports nothing of it.
proof fn lemma_step_keeps_gone(
    m: SessionModel,
    addr: Seq<char>,
    bytes: Seq<u8>,
    now: u64,
    a0: Seq<char>,
    id0: u32,
)
    requires
        sessions_wf(m),
        gone(m, a0, id0),
        addr != a0,
    ensures
        ({
            let r = message_step(m, addr, bytes, now).0;
            &&& sessions_wf(r)
            &&& gone(r, a0, id0)
            &&& no_new_disconnect(m.events, r.events, id0)
        }),
{
    lemma_message_step_wf(m, addr, bytes, now);
    lemma_touch_wf(m, addr, now);
    let t = touch(m, addr, now);
    assert(gone(t, a0, id0)) by {
        assert forall|j: int| 0 <= j < t.clients.len() implies (#[trigger] t.clients[j]).addr != a0
            && t.clients[j].id != id0 by {
            assert(t.clients[j].addr == m.clients[j].addr && t.clients[j].id == m.clients[j].id);
        }
    }
    assert(t.events.subrange(0, m.events.len() as int) =~= m.events);
    let r = message_step(m, addr, bytes, now).0;
    if bytes.len() == 0 {
        lemma_drop_keeps_gone(m, addr, a0, id0);
    } else {
        match spec_unframe(bytes) {
            Some((Opcode::ClientConnected, _)) => {
                let c = connect_step(t, addr, now).0;
                if find_client(t.clients, addr) is Some {
                    lemma_touch_wf(t, addr, now);
                    assert forall|j: int| 0 <= j < c.clients.len() implies (
                    #[trigger] c.clients[j]).addr != a0 && c.clients[j].id != id0 by {
                        assert(c.clients[j].addr == t.clients[j].addr && c.clients[j].id
                            == t.clients[j].id);
                    }
                    assert(c.events.subrange(0, m.events.len() as int) =~= m.events);
                } else if t.next_id <= u32::MAX as nat {
                    assert forall|j: int| 0 <= j < c.clients.len() implies (
                    #[trigger] c.clients[j]).addr != a0 && c.clients[j].id != id0 by {
                        if j < t.clients.len() {
                            assert(c.clients[j] == t.clients[j]);
                        }
                    }
                    assert(c.events.subrange(0, m.events.len() as int) =~= m.events);
                } else {
                    assert(c.events.subrange(0, m.events.len() as int) =~= m.events);
                }
                assert(no_new_disconnect(m.events, r.events, id0));
            },
            Some((Opcode::ClientDisconnected, _)) => {
                lemma_drop_keeps_gone(t, addr, a0, id0);
            },
            Some((Opcode::Message, payload)) => {
                assert(r.events.subrange(0, m.events.len() as int) =~= m.events);
                assert(no_new_disconnect(m.events, r.events, id0));
            },
            None => {
                assert(no_new_disconnect(m.events, r.events, id0));
            },
        }
    }
}

/// The disconnect path of another address leaves a gone peer gone and reports
/// nothing of it.
proof fn lemma_drop_keeps_gone(q: SessionModel, addr: Seq<char>, a0: Seq<char>, id0: u32)
    requires
        gone(q, a0, id0),
    ensures
        gone(drop_step(q, addr).0, a0, id0),
        no_new_disconnect(q.events, drop_step(q, addr).0.events, id0),
{
    let d = drop_step(q, addr).0;
    assert(d.events.subrange(0, q.events.len() as int) =~= q.events);
    if let Some(i) = find_client(q.clients, addr) {
        assert(q.clients[i].id != id0);
        assert forall|j: int| 0 <= j < d.clients.len() implies (#[trigger] d.clients[j]).addr
            != a0 && d.clients[j].id != id0 by {
            let j0 = if j < i { j } else { j + 1 };
            assert(d.clients[j] == q.clients[j0]);
        }
    }
}

/// The messages `msgs`, none of them from `a0`, leave a gone peer gone and report
/// nothing of it.
proof fn lemma_run_keeps_gone(
    m: SessionModel,
    msgs: Seq<(Seq<char>, Seq<u8>)>,
    now: u64,
    a0: Seq<char>,
    id0: u32,
)
    requires
        sessions_wf(m),
        gone(m, a0, id0),
        forall|j: int| 0 <= j < msgs.len() ==> (#[trigger] msgs[j]).0 != a0,
    ensures
        ({
            let r = run_messages(m, msgs, now);
            &&& sessions_wf(r)
            &&& gone(r, a0, id0)
            &&& no_new_disconnect(m.events, r.events, id0)
        }),
    decreases msgs.len(),
{
    if msgs.len() == 0 {
        assert(m.events.subrange(0, m.events.len() as int) =~= m.events);
    } else {
        let prev = msgs.drop_last();
        assert forall|j: int| 0 <= j < prev.len() implies (#[trigger] prev[j]).0 != a0 by {
            assert(prev[j] == msgs[j]);
        }
        lemma_run_keeps_gone(m, prev, now, a0, id0);
        let r0 = run_messages(m, prev, now);
        let last = msgs.last();
        assert(msgs[msgs.len() - 1] == last);
        lemma_step_keeps_gone(r0, last.0, last.1, now, a0, id0);
        let r = run_messages(m, msgs, now);
        assert forall|k: int| m.events.len() <= k < r.events.len() implies #[trigger] r.events[k]
            != EventModel::ClientDisconnected(id0) by {
            if k < r0.events.len() {
                assert(r.events.subrange(0, r0.events.len() as int)[k] == r.events[k]);
                assert(r0.events[k] != EventModel::ClientDisconnected(id0));
            }
        }
        assert(r.events.subrange(0, m.events.len() as int) =~= m.events) by {
            assert forall|k: int| 0 <= k < m.events.len() implies r.events[k] == m.events[k] by {
                assert(r.events.subrange(0, r0.events.len() as int)[k] == r.events[k]);
                assert(r0.events.subrange(0, m.events.len() as int)[k] == r0.events[k]);
            }
        }
    }
}

/// Timeout eviction over a whole tick (`Server::poll_at`): a connected peer silent for
/// longer than the timeout, which sends nothing during the tick, is gone afterwards,
/// and the events of the tick report its disconnection exactly once.
pub proof fn lemma_poll_eviction(
    m: SessionModel,
    now: u64,
    timeout: u64,
    i: int,
    msgs: Seq<(Seq<char>, Seq<u8>)>,
)
    requires
        sessions_wf(m),
        0 <= i < m.clients.len(),
        is_expired(m.clients[i], now, timeout),
        forall|j: int| 0 <= j < msgs.len() ==> (#[trigger] msgs[j]).0 != m.clients[i].addr,
    ensures
        ({
            let c = m.clients[i];
            let r = run_messages(evict_step(m, now, timeout).0, msgs, now);
            let added = r.events.subrange(m.events.len() as int, r.events.len() as int);
            &&& find_client(r.clients, c.addr) is None
            &&& forall|j: int| 0 <= j < r.clients.len() ==> (#[trigger] r.clients[j]).id != c.id
            &&& r.events.subrange(0, m.events.len() as int) == m.events
            &&& exists|k: int|
                0 <= k < added.len() && added[k] == EventModel::ClientDisconnected(c.id) && forall|
                    k2: int,
                |
                    0 <= k2 < added.len() && k2 != k ==> #[trigger] added[k2]
                        != EventModel::ClientDisconnected(c.id)
        }),
{
    let c = m.clients[i];
    lemma_timeout_eviction(m, now, timeout, i);
    lemma_evict_wf(m, now, timeout);
    let m1 = evict_step(m, now, timeout).0;
    assert(c.id < m.next_id);
    assert(gone(m1, c.addr, c.id)) by {
        assert forall|j: int| 0 <= j < m1.clients.len() implies (#[trigger] m1.clients[j]).addr
            != c.addr && m1.clients[j].id != c.id by {
            if m1.clients[j].addr == c.addr {
                assert(find_client(m1.clients, c.addr) is Some);
            }
        }
    }
    lemma_run_keeps_gone(m1, msgs, now, c.addr, c.id);
    let r = run_messages(m1, msgs, now);
    if find_client(r.clients, c.addr) is Some {
        let j = choose|j: int| 0 <= j < r.clients.len() && #[trigger] r.clients[j].addr == c.addr;
    }
    let n0 = m.events.len() as int;
    let n1 = m1.events.len() as int;
    let added1 = m1.events.subrange(n0, n1);
    let added = r.events.subrange(n0, r.events.len() as int);
    let k = choose|k: int|
        0 <= k < added1.len() && added1[k] == EventModel::ClientDisconnected(c.id) && forall|
            k2: int,
        |
            0 <= k2 < added1.len() && k2 != k ==> #[trigger] added1[k2]
                != EventModel::ClientDisconnected(c.id);
    assert forall|q: int| 0 <= q < n1 implies r.events[q] == m1.events[q] by {
        assert(r.events.subrange(0, n1)[q] == r.events[q]);
    }
    assert(added[k] == EventModel::ClientDisconnected(c.id));
    assert forall|k2: int| 0 <= k2 < added.len() && k2 != k implies #[trigger] added[k2]
        != EventModel::ClientDisconnected(c.id) by {
        if n0 + k2 < n1 {
            assert(added[k2] == added1[k2]);
        } else {
            assert(added[k2] == r.events[n0 + k2]);
        }
    }
    assert(r.events.subrange(0, n0) =~= m.events) by {
        assert forall|q: int| 0 <= q < n0 implies r.events[q] == m.events[q] by {
            assert(m1.events.subrange(0, n0)[q] == m1.events[q]);
        }
    }
}

} // verus!
