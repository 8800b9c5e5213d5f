use std::collections::VecDeque;
use vstd::bytes::{spec_u32_from_le_bytes, u32_from_le_bytes};
use vstd::prelude::*;

use crate::opcode::{framed, spec_unframe, unframe, Opcode};
use crate::server::MAX_INBOUND_PER_POLL;
use crate::transport::{Reliability, ReliableTransport, Transport, TransportError};

verus! {

/// Where the client stands with the server.
#[derive(Clone, Copy, Debug, PartialEq, Eq, Structural)]
pub enum ClientState {
    /// `Connect` sent, no identity assigned yet.
    Connecting,
    /// The server assigned this identity.
    Connected(u32),
    /// The session is over; nothing more is reported.
    Disconnected,
}

/// What the client reports to the application.
#[derive(Debug)]
pub enum ClientEvent {
    Connected(u32),
    Disconnected,
    MessageReceived(Vec<u8>),
}

/// An event as the model sees it.
pub enum ClientEventModel {
    Connected(u32),
    Disconnected,
    MessageReceived(Seq<u8>),
}

impl View for ClientEvent {
    type V = ClientEventModel;

    open spec fn view(&self) -> ClientEventModel {
        match self {
            ClientEvent::Connected(id) => ClientEventModel::Connected(*id),
            ClientEvent::Disconnected => ClientEventModel::Disconnected,
            ClientEvent::MessageReceived(p) => ClientEventModel::MessageReceived(p@),
        }
    }
}

/// The client's session: its state and the events not yet drained.
pub struct ClientSession {
    pub state: ClientState,
    pub events: Seq<ClientEventModel>,
}

pub open spec fn client_events_view(e: Seq<ClientEvent>) -> Seq<ClientEventModel> {
    e.map_values(|v: ClientEvent| v@)
}

/// The session ends: unless it is over already, the state becomes `Disconnected`
/// and a `Disconnected` event is emitted.
pub open spec fn session_lost(s: ClientSession) -> ClientSession {
    if s.state == ClientState::Disconnected {
        s
    } else {
        ClientSession {
            state: ClientState::Disconnected,
            events: s.events.push(ClientEventModel::Disconnected),
        }
    }
}

/// One inbound message. Once disconnected nothing changes. An empty message (the
/// transport's close signal) or a `Disconnect` ends the session; a `Connect` carrying
/// a four-byte little-endian identity connects (or updates the identity); `Data` with
/// a non-empty payload is reported. Anything else is ignored.
pub open spec fn client_step(s: ClientSession, bytes: Seq<u8>) -> ClientSession {
    if s.state == ClientState::Disconnected {
        s
    } else if bytes.len() == 0 {
        session_lost(s)
    } else {
        match spec_unframe(bytes) {
            Some((Opcode::ClientConnected, rest)) => if rest.len() == 4 {
                let id = spec_u32_from_le_bytes(rest);
                ClientSession {
                    state: ClientState::Connected(id),
                    events: s.events.push(ClientEventModel::Connected(id)),
                }
            } else {
                s
            },
            Some((Opcode::ClientDisconnected, _)) => session_lost(s),
            Some((Opcode::Message, p)) => if p.len() > 0 {
                ClientSession { events: s.events.push(ClientEventModel::MessageReceived(p)), ..s }
            } else {
                s
            },
            None => s,
        }
    }
}

/// The inbound messages `msgs` handled in order.
pub open spec fn run_client(s: ClientSession, msgs: Seq<Seq<u8>>) -> ClientSession
    decreases msgs.len(),
{
    if msgs.len() == 0 {
        s
    } else {
        client_step(run_client(s, msgs.drop_last()), msgs.last())
    }
}

/// Once disconnected, no inbound message changes the session.
pub proof fn lemma_disconnected_is_terminal(s: ClientSession, msgs: Seq<Seq<u8>>)
    requires
        s.state == ClientState::Disconnected,
    ensures
        run_client(s, msgs) == s,
    decreases msgs.len(),
{
    if msgs.len() > 0 {
        lemma_disconnected_is_terminal(s, msgs.drop_last());
    }
}

/// The client session state machine over a transport.
pub struct Client<T: Transport> {
    transport: T,
    server_addr: String,
    state: ClientState,
    events: VecDeque<ClientEvent>,
    /// Whether the `Disconnect` notice went out; it goes out once at most.
    disconnect_sent: bool,
}

impl<T: Transport> Client<T> {
    /// The session as the model sees it.
    pub closed spec fn session(&self) -> ClientSession {
        ClientSession { state: self.state, events: client_events_view(self.events@) }
    }

    /// The address of the server.
    pub closed spec fn server(&self) -> Seq<char> {
        self.server_addr@
    }

    /// Whether the `Disconnect` notice went out.
    pub closed spec fn notice_sent(&self) -> bool {
        self.disconnect_sent
    }

    /// The medium underneath.
    pub fn transport(&self) -> &T {
        &self.transport
    }

    /// Where the client stands with the server.
    pub fn state(&self) -> (r: ClientState)
        ensures
            r == self.session().state,
    {
        self.state
    }

    /// Whether the `Disconnect` notice went out.
    pub fn disconnect_sent(&self) -> (r: bool)
        ensures
            r == self.notice_sent(),
    {
        self.disconnect_sent
    }

    /// Announces the client to the server at `server_addr` with a `Connect` on the
    /// control channel. If that send fails, the session is over from the start.
    pub fn new(transport: T, server_addr: &str) -> (r: Self)
        ensures
            r.server() == server_addr@,
            !r.notice_sent(),
            r.session() == (ClientSession { state: ClientState::Connecting, events: Seq::empty() })
                || r.session() == session_lost(
                ClientSession { state: ClientState::Connecting, events: Seq::empty() },
            ),
    {
        let mut client = Client {
            transport,
            server_addr: server_addr.to_owned(),
            state: ClientState::Connecting,
            events: VecDeque::new(),
            disconnect_sent: false,
        };
        proof {
            assert(client_events_view(client.events@) =~= Seq::empty());
        }
        let empty: Vec<u8> = Vec::new();
        let hello = Opcode::ClientConnected.with_bytes(empty.as_slice());
        let r = client.transport.send_to(server_addr, hello.as_slice(), Reliability::ReliableOrdered(0));
        client.on_send_result(r);
        client
    }

    /// Ends the session unless it is over already (see `session_lost`).
    fn lose_session(&mut self)
        ensures
            final(self).session() == session_lost(old(self).session()),
            final(self).server() == old(self).server(),
            final(self).notice_sent() == old(self).notice_sent(),
    {
        if self.state != ClientState::Disconnected {
            let ghost e0 = client_events_view(self.events@);
            self.state = ClientState::Disconnected;
            self.events.push_back(ClientEvent::Disconnected);
            proof {
                assert(client_events_view(self.events@) =~= e0.push(ClientEventModel::Disconnected));
            }
        }
    }

    /// What a send's outcome does to the session: a failed delivery ends it.
    pub fn on_send_result(&mut self, result: Result<(), TransportError>)
        ensures
            result is Ok ==> final(self).session() == old(self).session(),
            result is Err ==> final(self).session() == session_lost(old(self).session()),
            final(self).server() == old(self).server(),
            final(self).notice_sent() == old(self).notice_sent(),
    {
        if result.is_err() {
            self.lose_session();
        }
    }

    /// Handles one inbound message (see `client_step`).
    pub fn handle_message(&mut self, bytes: &[u8])
        ensures
            final(self).session() == client_step(old(self).session(), bytes@),
            final(self).server() == old(self).server(),
            final(self).notice_sent() == old(self).notice_sent(),
    {
        if self.state == ClientState::Disconnected {
            return ;
        }
        if bytes.len() == 0 {
            self.lose_session();
            return ;
        }
        let ghost e0 = client_events_view(self.events@);
        match unframe(bytes) {
            Some((Opcode::ClientConnected, rest)) => {
                if rest.len() == 4 {
                    let id = u32_from_le_bytes(rest.as_slice());
                    self.state = ClientState::Connected(id);
                    self.events.push_back(ClientEvent::Connected(id));
                    proof {
                        assert(client_events_view(self.events@) =~= e0.push(
                            ClientEventModel::Connected(id),
                        ));
                    }
                }
            },
            Some((Opcode::ClientDisconnected, _)) => {
                self.lose_session();
            },
            Some((Opcode::Message, p)) => {
                if p.len() > 0 {
                    let ghost pv = p@;
                    self.events.push_back(ClientEvent::MessageReceived(p));
                    proof {
                        assert(client_events_view(self.events@) =~= e0.push(
                            ClientEventModel::MessageReceived(pv),
                        ));
                    }
                }
            },
            None => {},
        }
    }

    /// Drives the transport's poll, then handles the inbound messages available (at
    /// most `MAX_INBOUND_PER_POLL`). Which messages were available is up to the
    /// transport.
    pub fn poll(&mut self)
        ensures
            final(self).server() == old(self).server(),
            final(self).notice_sent() == old(self).notice_sent(),
            exists|msgs: Seq<Seq<u8>>|
                msgs.len() <= MAX_INBOUND_PER_POLL && final(self).session() == run_client(
                    old(self).session(),
                    msgs,
                ),
    {
        self.transport.poll();
        let ghost mut msgs: Seq<Seq<u8>> = Seq::empty();
        let mut n: usize = 0;
        let mut done = false;
        while !done && n < MAX_INBOUND_PER_POLL
            invariant
                self.server() == old(self).server(),
                self.notice_sent() == old(self).notice_sent(),
                msgs.len() <= n,
                n <= MAX_INBOUND_PER_POLL,
                self.session() == run_client(old(self).session(), msgs),
            decreases MAX_INBOUND_PER_POLL - n,
        {
            match self.transport.recv() {
                Some((_addr, bytes)) => {
                    self.handle_message(bytes.as_slice());
                    proof {
                        let prev = msgs;
                        msgs = msgs.push(bytes@);
                        assert(msgs.drop_last() =~= prev);
                    }
                },
                None => {
                    done = true;
                },
            }
            n = n + 1;
        }
    }

    /// The oldest event not yet drained.
    pub fn recv_event(&mut self) -> (r: Option<ClientEvent>)
        ensures
            final(self).session().state == old(self).session().state,
            final(self).server() == old(self).server(),
            final(self).notice_sent() == old(self).notice_sent(),
            old(self).session().events.len() == 0 ==> r is None && final(self).session()
                == old(self).session(),
            old(self).session().events.len() > 0 ==> (r matches Some(e) && e@ == old(
                self,
            ).session().events[0] && final(self).session().events == old(
                self,
            ).session().events.drop_first()),
    {
        let r = self.events.pop_front();
        proof {
            if old(self).events@.len() > 0 {
                assert(client_events_view(self.events@) =~= client_events_view(
                    old(self).events@,
                ).drop_first());
            }
        }
        r
    }

    /// Sends `bytes` as data to the server; a delivery failure ends the session.
    pub fn send(&mut self, bytes: &[u8], reliability: Reliability) -> (r: Result<(), TransportError>)
        ensures
            r is Ok ==> final(self).session() == old(self).session(),
            r is Err ==> final(self).session() == session_lost(old(self).session()),
            final(self).server() == old(self).server(),
            final(self).notice_sent() == old(self).notice_sent(),
    {
        let msg = Opcode::Message.with_bytes(bytes);
        let r = self.transport.send_to(self.server_addr.as_str(), msg.as_slice(), reliability);
        self.on_send_result(r);
        r
    }

    /// The `Disconnect` notice, the first time it is asked for; `None` ever after.
    pub fn take_disconnect_notice(&mut self) -> (r: Option<Vec<u8>>)
        ensures
            final(self).notice_sent(),
            !old(self).notice_sent() ==> (r matches Some(n) && n@ == framed(
                Opcode::ClientDisconnected,
                Seq::empty(),
            )),
            old(self).notice_sent() ==> r is None,
            final(self).session() == old(self).session(),
            final(self).server() == old(self).server(),
    {
        if self.disconnect_sent {
            return None;
        }
        self.disconnect_sent = true;
        let empty: Vec<u8> = Vec::new();
        proof {
            assert(empty@ =~= Seq::<u8>::empty());
        }
        Some(Opcode::ClientDisconnected.with_bytes(empty.as_slice()))
    }

    /// Tears the session down: the `Disconnect` notice goes to the server once (best
    /// effort), however often this is called, the transport is told to close the
    /// server's address, and the state becomes `Disconnected`.
    pub fn disconnect(&mut self)
        ensures
            final(self).notice_sent(),
            final(self).session().state == ClientState::Disconnected,
            final(self).session().events == old(self).session().events,
            final(self).server() == old(self).server(),
    {
        match self.take_disconnect_notice() {
            Some(n) => {
                let _ = self.transport.send_to(
                    self.server_addr.as_str(),
                    n.as_slice(),
                    Reliability::ReliableOrdered(0),
                );
            },
            None => {},
        }
        self.transport.close(self.server_addr.as_str());
        self.state = ClientState::Disconnected;
    }
}

impl<T: Transport + ReliableTransport> Client<T> {
    /// Sends `bytes` as data to the server through the medium's own reliability; a
    /// delivery failure ends the session.
    pub fn send_reliable(&mut self, bytes: &[u8], ordered: bool) -> (r: Result<(), TransportError>)
        ensures
            r is Ok ==> final(self).session() == old(self).session(),
            r is Err ==> final(self).session() == session_lost(old(self).session()),
            final(self).server() == old(self).server(),
            final(self).notice_sent() == old(self).notice_sent(),
    {
        let msg = Opcode::Message.with_bytes(bytes);
        let r = self.transport.send_reliable_to(self.server_addr.as_str(), msg.as_slice(), ordered);
        self.on_send_result(r);
        r
    }
}

} // verus!
