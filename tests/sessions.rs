use std::cell::RefCell;
use std::collections::VecDeque;
use std::rc::Rc;

use wrym::channel::ChannelConfig;
use wrym::client::{Client, ClientEvent, ClientState};
use wrym::link::ReliableLink;
use wrym::message::MessageType;
use wrym::server::{Server, ServerConfig, ServerEvent};
use wrym::transport::{Reliability, ReliableTransport, Transport, TransportError};

#[derive(Default)]
struct MockState {
    inbound: VecDeque<(String, Vec<u8>)>,
    sent: Vec<(String, Vec<u8>, Reliability)>,
    reliable_sent: Vec<(String, Vec<u8>, bool)>,
    unreachable: Vec<String>,
    polls: usize,
    closed: Vec<String>,
}

/// A medium whose state the test keeps a handle on.
#[derive(Clone, Default)]
struct Mock(Rc<RefCell<MockState>>);

impl Mock {
    fn push(&self, addr: &str, bytes: &[u8]) {
        self.0.borrow_mut().inbound.push_back((addr.to_string(), bytes.to_vec()));
    }
    fn sent(&self) -> Vec<(String, Vec<u8>, Reliability)> {
        self.0.borrow().sent.clone()
    }
    fn clear_sent(&self) {
        self.0.borrow_mut().sent.clear();
    }
    fn reliable_sent(&self) -> Vec<(String, Vec<u8>, bool)> {
        self.0.borrow().reliable_sent.clone()
    }
    fn make_unreachable(&self, addr: &str) {
        self.0.borrow_mut().unreachable.push(addr.to_string());
    }
    fn polls(&self) -> usize {
        self.0.borrow().polls
    }
    fn closed(&self) -> Vec<String> {
        self.0.borrow().closed.clone()
    }
    fn outcome(&self, addr: &str) -> Result<(), TransportError> {
        if self.0.borrow().unreachable.iter().any(|a| a == addr) {
            Err(TransportError::Unreachable)
        } else {
            Ok(())
        }
    }
}

impl Transport for Mock {
    fn poll(&mut self) {
        self.0.borrow_mut().polls += 1;
    }

    fn recv(&mut self) -> Option<(String, Vec<u8>)> {
        self.0.borrow_mut().inbound.pop_front()
    }

    fn send_to(&mut self, addr: &str, bytes: &[u8], reliability: Reliability) -> Result<(), TransportError> {
        self.0.borrow_mut().sent.push((addr.to_string(), bytes.to_vec(), reliability));
        self.outcome(addr)
    }

    fn close(&mut self, addr: &str) {
        self.0.borrow_mut().closed.push(addr.to_string());
    }
}

impl ReliableTransport for Mock {
    fn send_reliable_to(&mut self, addr: &str, bytes: &[u8], ordered: bool) -> Result<(), TransportError> {
        self.0.borrow_mut().reliable_sent.push((addr.to_string(), bytes.to_vec(), ordered));
        self.outcome(addr)
    }
}

fn drain(server: &mut Server<Mock>) -> Vec<ServerEvent> {
    let mut out = Vec::new();
    while let Some(e) = server.recv_event() {
        out.push(e);
    }
    out
}

fn connected(e: &ServerEvent) -> Option<u32> {
    match e {
        ServerEvent::ClientConnected(id) => Some(*id),
        _ => None,
    }
}

fn disconnected(e: &ServerEvent) -> Option<u32> {
    match e {
        ServerEvent::ClientDisconnected(id) => Some(*id),
        _ => None,
    }
}

#[test]
fn identities_are_never_reused() {
    let mut server = Server::new(Mock::default(), ServerConfig::default());
    server.transport().push("a:1", &[1]);
    server.poll_at(0);
    server.transport().push("b:2", &[1]);
    server.poll_at(10);
    server.transport().push("a:1", &[2]);
    server.poll_at(20);
    server.transport().push("c:3", &[1]);
    server.poll_at(30);
    let events = drain(&mut server);
    let ids: Vec<u32> = events.iter().filter_map(connected).collect();
    assert_eq!(ids, vec![1, 2, 3]);
    let gone: Vec<u32> = events.iter().filter_map(disconnected).collect();
    assert_eq!(gone, vec![1]);
    assert_eq!(server.client_id_for("c:3"), Some(3));
    assert_eq!(server.client_id_for("a:1"), None);
}

#[test]
fn simultaneous_peers_get_distinct_identities() {
    let mut server = Server::new(Mock::default(), ServerConfig::default());
    server.transport().push("a:1", &[1]);
    server.transport().push("b:2", &[1]);
    server.poll_at(0);
    let a = server.client_id_for("a:1").unwrap();
    let b = server.client_id_for("b:2").unwrap();
    assert_ne!(a, b);
    assert_eq!(server.client_addr_for(a), Some("a:1".to_string()));
    assert_eq!(server.client_addr_for(b), Some("b:2".to_string()));
    assert_eq!(server.client_addr_for(99), None);
}

#[test]
fn connect_is_answered_on_the_control_channel() {
    let mut server = Server::new(Mock::default(), ServerConfig::default());
    server.transport().push("a:1", &[1]);
    server.poll_at(0);
    assert_eq!(
        server.transport().sent(),
        vec![("a:1".to_string(), vec![1, 1, 0, 0, 0], Reliability::ReliableOrdered(0))]
    );
    // a second Connect from the same address changes nothing
    server.transport().push("a:1", &[1]);
    server.poll_at(5);
    assert_eq!(server.transport().sent().len(), 1);
    assert_eq!(server.clients().len(), 1);
    assert_eq!(server.clients()[0].last_activity, 5);
    let events = drain(&mut server);
    assert_eq!(events.len(), 1);
    assert_eq!(server.transport().polls(), 2);
}

#[test]
fn data_from_connected_peer_is_reported() {
    let mut server = Server::new(Mock::default(), ServerConfig::default());
    server.transport().push("a:1", &[1]);
    server.transport().push("a:1", &[3, b'h', b'i']);
    server.transport().push("a:1", &[3]);
    server.transport().push("zz:9", &[3, 1]);
    server.transport().push("a:1", &[42, 1]);
    server.poll_at(0);
    let events = drain(&mut server);
    assert_eq!(events.len(), 2);
    match &events[1] {
        ServerEvent::MessageReceived(id, bytes) => {
            assert_eq!(*id, 1);
            assert_eq!(bytes, &b"hi".to_vec());
        }
        _ => panic!("expected a message"),
    }
}

#[test]
fn close_signal_disconnects_the_peer() {
    let mut server = Server::new(Mock::default(), ServerConfig::default());
    server.transport().push("a:1", &[1]);
    server.poll_at(0);
    server.transport().push("a:1", &[]);
    server.poll_at(1);
    let events = drain(&mut server);
    assert_eq!(events.iter().filter_map(disconnected).collect::<Vec<u32>>(), vec![1]);
    assert!(server.clients().is_empty());
    assert_eq!(server.transport().sent().last().unwrap(), &("a:1".to_string(), vec![2], Reliability::Unreliable));
}

#[test]
fn silent_peer_is_evicted_once() {
    let mut server = Server::new(Mock::default(), ServerConfig { client_timeout_ms: 1000 });
    server.transport().push("a:1", &[1]);
    server.transport().push("b:2", &[1]);
    server.poll_at(0);
    server.transport().push("b:2", &[3, 7]);
    server.poll_at(600);
    server.poll_at(1000);
    assert_eq!(server.clients().len(), 2);
    server.poll_at(1001);
    assert_eq!(server.clients().len(), 1);
    server.poll_at(1500);
    server.poll_at(5000);
    let events = drain(&mut server);
    let gone: Vec<u32> = events.iter().filter_map(disconnected).collect();
    assert_eq!(gone, vec![1, 2]);
}

#[test]
fn default_timeout_is_a_minute() {
    assert_eq!(ServerConfig::default().client_timeout_ms, 60_000);
    let mut server = Server::new(Mock::default(), ServerConfig::default());
    server.transport().push("a:1", &[1]);
    server.poll_at(0);
    server.poll_at(60_000);
    assert_eq!(server.clients().len(), 1);
    server.poll_at(60_001);
    assert!(server.clients().is_empty());
}

#[test]
fn failed_delivery_disconnects_the_peer() {
    let mut server = Server::new(Mock::default(), ServerConfig::default());
    server.transport().push("a:1", &[1]);
    server.transport().push("b:2", &[1]);
    server.poll_at(0);
    drain(&mut server);
    server.transport().make_unreachable("a:1");
    assert_eq!(server.send_to("b:2", b"x", Reliability::Unreliable), Ok(()));
    assert_eq!(server.transport().sent().last().unwrap().1, vec![3, b'x']);
    assert_eq!(server.send_to("a:1", b"x", Reliability::Unreliable), Err(TransportError::Unreachable));
    let events = drain(&mut server);
    assert_eq!(events.iter().filter_map(disconnected).collect::<Vec<u32>>(), vec![1]);
    assert_eq!(server.clients().len(), 1);
}

#[test]
fn broadcast_reaches_every_peer() {
    let mut server = Server::new(Mock::default(), ServerConfig::default());
    server.transport().push("a:1", &[1]);
    server.transport().push("b:2", &[1]);
    server.transport().push("c:3", &[1]);
    server.poll_at(0);
    drain(&mut server);
    server.transport().clear_sent();
    server.transport().make_unreachable("b:2");
    let results = server.broadcast(b"all", Reliability::ReliableUnordered);
    assert_eq!(results, vec![Ok(()), Err(TransportError::Unreachable), Ok(())]);
    let to: Vec<String> = server
        .transport()
        .sent()
        .into_iter()
        .filter(|s| s.1 == vec![3, b'a', b'l', b'l'])
        .map(|s| s.0.clone())
        .collect();
    assert_eq!(to, vec!["a:1".to_string(), "b:2".to_string(), "c:3".to_string()]);
    let events = drain(&mut server);
    assert_eq!(events.iter().filter_map(disconnected).collect::<Vec<u32>>(), vec![2]);
    assert_eq!(server.clients().len(), 2);
}

#[test]
fn reliable_sends_use_the_medium_reliability() {
    let mut server = Server::new(Mock::default(), ServerConfig::default());
    server.transport().push("a:1", &[1]);
    server.transport().push("b:2", &[1]);
    server.poll_at(0);
    assert_eq!(server.send_reliable_to("a:1", b"r", true), Ok(()));
    assert_eq!(server.broadcast_reliable(b"q", false), vec![Ok(()), Ok(())]);
    assert_eq!(
        server.transport().reliable_sent(),
        vec![
            ("a:1".to_string(), vec![3, b'r'], true),
            ("a:1".to_string(), vec![3, b'q'], false),
            ("b:2".to_string(), vec![3, b'q'], false),
        ]
    );
}

#[test]
fn server_poll_reads_the_clock() {
    let mut server = Server::new(Mock::default(), ServerConfig::default());
    server.transport().push("a:1", &[1]);
    server.poll();
    assert_eq!(server.clients().len(), 1);
    assert_eq!(drain(&mut server).len(), 1);
}

#[test]
fn client_announces_itself() {
    let client = Client::new(Mock::default(), "srv:1");
    assert_eq!(client.state(), ClientState::Connecting);
    assert_eq!(
        client.transport().sent(),
        vec![("srv:1".to_string(), vec![1], Reliability::ReliableOrdered(0))]
    );
}

#[test]
fn client_learns_its_identity() {
    let mut client = Client::new(Mock::default(), "srv:1");
    client.transport().push("srv:1", &[1, 5, 0, 0, 0]);
    client.transport().push("srv:1", &[1, 9]);
    client.transport().push("srv:1", &[3, b'o', b'k']);
    client.transport().push("srv:1", &[3]);
    client.poll();
    assert_eq!(client.state(), ClientState::Connected(5));
    match client.recv_event() {
        Some(ClientEvent::Connected(5)) => {}
        other => panic!("unexpected {:?}", other),
    }
    match client.recv_event() {
        Some(ClientEvent::MessageReceived(b)) => assert_eq!(b, b"ok".to_vec()),
        other => panic!("unexpected {:?}", other),
    }
    assert!(client.recv_event().is_none());
}

#[test]
fn client_disconnect_notice_and_terminal_state() {
    let mut client = Client::new(Mock::default(), "srv:1");
    client.transport().push("srv:1", &[2]);
    client.transport().push("srv:1", &[1, 5, 0, 0, 0]);
    client.poll();
    assert_eq!(client.state(), ClientState::Disconnected);
    assert!(matches!(client.recv_event(), Some(ClientEvent::Disconnected)));
    assert!(client.recv_event().is_none());
}

#[test]
fn client_close_signal_ends_session() {
    let mut client = Client::new(Mock::default(), "srv:1");
    client.transport().push("srv:1", &[]);
    client.transport().push("srv:1", &[]);
    client.poll();
    assert_eq!(client.state(), ClientState::Disconnected);
    assert!(matches!(client.recv_event(), Some(ClientEvent::Disconnected)));
    assert!(client.recv_event().is_none());
}

#[test]
fn client_disconnect_is_sent_once() {
    let mut client = Client::new(Mock::default(), "srv:1");
    client.disconnect();
    client.disconnect();
    let notices: Vec<_> = client.transport().sent().into_iter().filter(|s| s.1 == vec![2]).collect();
    assert_eq!(notices.len(), 1);
    assert_eq!(client.state(), ClientState::Disconnected);
    assert!(client.disconnect_sent());
    assert_eq!(client.take_disconnect_notice(), None);
}

#[test]
fn client_sends_data_to_the_server() {
    let mut client = Client::new(Mock::default(), "srv:1");
    assert_eq!(client.send(b"hey", Reliability::Unreliable), Ok(()));
    assert_eq!(client.send_reliable(b"yo", true), Ok(()));
    assert_eq!(client.transport().sent()[1], ("srv:1".to_string(), vec![3, b'h', b'e', b'y'], Reliability::Unreliable));
    assert_eq!(client.transport().reliable_sent(), vec![("srv:1".to_string(), vec![3, b'y', b'o'], true)]);
}

#[test]
fn client_failed_send_ends_session() {
    let mock = Mock::default();
    mock.make_unreachable("srv:1");
    let mut client = Client::new(mock, "srv:1");
    assert_eq!(client.state(), ClientState::Disconnected);
    assert!(matches!(client.recv_event(), Some(ClientEvent::Disconnected)));
    assert_eq!(client.send(b"x", Reliability::Unreliable), Err(TransportError::Unreachable));
    assert!(client.recv_event().is_none());
}

#[test]
fn link_wraps_and_tracks_reliable_sends() {
    let mut link = ReliableLink::new(Mock::default(), ChannelConfig::default());
    assert_eq!(link.send_at("p:1", b"u", Reliability::Unreliable, 0), Ok(()));
    assert_eq!(link.send_at("p:1", b"r", Reliability::ReliableOrdered(3), 0), Ok(()));
    assert_eq!(
        link.medium().sent(),
        vec![
            ("p:1".to_string(), vec![0, b'u'], Reliability::Unreliable),
            ("p:1".to_string(), vec![1, 1, 0, 0, 0, b'r'], Reliability::Unreliable),
        ]
    );
    assert_eq!(link.channel().peers[0].pending.len(), 1);
    assert_eq!(link.retransmit_at(200).len(), 1);
    assert_eq!(link.deliver("p:1".to_string(), MessageType::Ack(1).encode()), None);
    assert!(link.channel().peers[0].pending.is_empty());
    assert!(link.retransmit_at(400).is_empty());
}

#[test]
fn link_acknowledges_and_orders_inbound() {
    let mut link = ReliableLink::new(Mock::default(), ChannelConfig::default());
    let mut medium_in = VecDeque::new();
    medium_in.push_back(("p:1".to_string(), MessageType::Reliable(b"2".to_vec(), 2).encode()));
    medium_in.push_back(("p:1".to_string(), MessageType::Reliable(b"1".to_vec(), 1).encode()));
    for (a, b) in medium_in {
        let reply = link.deliver(a, b);
        assert!(reply.is_some());
    }
    assert_eq!(link.pop_inbound(), Some(("p:1".to_string(), b"1".to_vec())));
    assert_eq!(link.pop_inbound(), Some(("p:1".to_string(), b"2".to_vec())));
    assert_eq!(link.pop_inbound(), None);
}

#[test]
fn link_as_a_transport_under_a_server() {
    let medium = Mock::default();
    medium.push("c:1", &MessageType::Reliable(vec![1], 1).encode());
    let link = ReliableLink::new(medium, ChannelConfig::default());
    let mut server = Server::new(link, ServerConfig::default());
    server.poll_at(0);
    let sent = server.transport().medium().sent();
    // the ACK for the Connect, then the reply carrying identity 1, reliably
    assert_eq!(sent[0], ("c:1".to_string(), vec![3, 1, 0, 0, 0], Reliability::Unreliable));
    assert_eq!(sent[1], ("c:1".to_string(), vec![1, 1, 0, 0, 0, 1, 1, 0, 0, 0], Reliability::Unreliable));
    assert_eq!(server.client_id_for("c:1"), Some(1));
}

#[test]
fn link_passes_the_close_signal_on() {
    let mut link = ReliableLink::new(Mock::default(), ChannelConfig::default());
    link.send_at("p:1", b"r", Reliability::ReliableUnordered, 0).unwrap();
    assert_eq!(link.deliver("p:1".to_string(), Vec::new()), None);
    assert!(link.channel().peers.is_empty());
    assert_eq!(link.pop_inbound(), Some(("p:1".to_string(), Vec::new())));
}

#[test]
fn evicted_peer_is_closed_in_the_transport() {
    let mut server = Server::new(Mock::default(), ServerConfig { client_timeout_ms: 10 });
    server.transport().push("a:1", &[1]);
    server.poll_at(0);
    assert!(server.transport().closed().is_empty());
    server.poll_at(11);
    assert_eq!(server.transport().closed(), vec!["a:1".to_string()]);
}

#[test]
fn closing_a_link_peer_stops_retransmission() {
    let mut link = ReliableLink::new(Mock::default(), ChannelConfig::default());
    link.send_at("p:1", b"r", Reliability::ReliableOrdered(0), 0).unwrap();
    link.close("p:1");
    assert!(link.retransmit_at(200).is_empty());
    assert_eq!(link.medium().closed(), vec!["p:1".to_string()]);
}

#[test]
fn client_disconnect_closes_the_server_address() {
    let mut client = Client::new(Mock::default(), "srv:1");
    client.disconnect();
    assert_eq!(client.transport().closed(), vec!["srv:1".to_string()]);
}
