use wrym::channel::{ChannelConfig, PeerChannel, ReliableChannel};
use wrym::framing::{frame, take_frame};
use wrym::message::MessageType;
use wrym::opcode::{unframe, Opcode};

fn reliable(payload: &[u8], seq: u32) -> Vec<u8> {
    MessageType::Reliable(payload.to_vec(), seq).encode()
}

fn unordered(payload: &[u8], seq: u32) -> Vec<u8> {
    MessageType::ReliableUnordered(payload.to_vec(), seq).encode()
}

fn ack(seq: u32) -> Vec<u8> {
    MessageType::Ack(seq).encode()
}

#[test]
fn reordered_sequences_are_released_in_order() {
    let mut ch = ReliableChannel::new(ChannelConfig::default());
    let r = ch.receive("peer", &reliable(b"two", 2));
    assert!(r.released.is_empty());
    assert_eq!(r.reply, Some(ack(2)));
    let r = ch.receive("peer", &reliable(b"three", 3));
    assert!(r.released.is_empty());
    assert_eq!(r.reply, Some(ack(3)));
    let r = ch.receive("peer", &reliable(b"one", 1));
    assert_eq!(r.released, vec![b"one".to_vec(), b"two".to_vec(), b"three".to_vec()]);
    assert_eq!(r.reply, Some(ack(1)));
}

#[test]
fn every_interleaving_with_duplicates_releases_each_once_in_order() {
    let orders: Vec<Vec<u32>> = vec![
        vec![1, 2, 3, 4],
        vec![4, 3, 2, 1],
        vec![2, 2, 4, 1, 3, 1, 4],
        vec![3, 1, 3, 4, 2, 2],
    ];
    for order in orders {
        let mut ch = ReliableChannel::new(ChannelConfig::default());
        let mut out: Vec<Vec<u8>> = Vec::new();
        for s in order {
            out.extend(ch.handle_reliable_message("p", s, vec![s as u8], true));
        }
        assert_eq!(out, vec![vec![1u8], vec![2u8], vec![3u8], vec![4u8]]);
    }
}

#[test]
fn released_sequence_is_not_released_again() {
    let mut ch = ReliableChannel::new(ChannelConfig::default());
    assert_eq!(ch.handle_reliable_message("p", 1, b"a".to_vec(), true), vec![b"a".to_vec()]);
    assert!(ch.handle_reliable_message("p", 1, b"a".to_vec(), true).is_empty());
    let r = ch.receive("p", &reliable(b"a", 1));
    assert!(r.released.is_empty());
    assert_eq!(r.reply, Some(ack(1)));
}

#[test]
fn resent_buffered_sequence_is_released_once() {
    let mut ch = ReliableChannel::new(ChannelConfig::default());
    assert!(ch.handle_reliable_message("p", 2, b"b".to_vec(), true).is_empty());
    assert!(ch.handle_reliable_message("p", 2, b"b".to_vec(), true).is_empty());
    assert_eq!(
        ch.handle_reliable_message("p", 1, b"a".to_vec(), true),
        vec![b"a".to_vec(), b"b".to_vec()]
    );
}

#[test]
fn streams_of_different_peers_are_independent() {
    let mut ch = ReliableChannel::new(ChannelConfig::default());
    assert!(ch.handle_reliable_message("x", 2, b"x2".to_vec(), true).is_empty());
    assert_eq!(ch.handle_reliable_message("y", 1, b"y1".to_vec(), true), vec![b"y1".to_vec()]);
    assert_eq!(
        ch.handle_reliable_message("x", 1, b"x1".to_vec(), true),
        vec![b"x1".to_vec(), b"x2".to_vec()]
    );
    assert_eq!(ch.peers.len(), 2);
}

#[test]
fn unordered_is_released_on_arrival_and_once() {
    let mut ch = ReliableChannel::new(ChannelConfig::default());
    let r = ch.receive("p", &unordered(b"u3", 3));
    assert_eq!(r.released, vec![b"u3".to_vec()]);
    assert_eq!(r.reply, Some(ack(3)));
    let r = ch.receive("p", &unordered(b"u3", 3));
    assert!(r.released.is_empty());
    assert_eq!(r.reply, Some(ack(3)));
    // the unordered slot does not hold back the ordered stream
    assert!(ch.handle_reliable_message("p", 2, b"o2".to_vec(), true).is_empty());
    assert_eq!(
        ch.handle_reliable_message("p", 1, b"o1".to_vec(), true),
        vec![b"o1".to_vec(), b"o2".to_vec()]
    );
    assert_eq!(ch.peers[0].next_expected, 4);
}

#[test]
fn unreliable_packet_is_released_without_ack() {
    let mut ch = ReliableChannel::new(ChannelConfig::default());
    let r = ch.receive("p", &MessageType::Unreliable(b"hi".to_vec()).encode());
    assert_eq!(r.released, vec![b"hi".to_vec()]);
    assert_eq!(r.reply, None);
    assert!(ch.peers.is_empty());
}

#[test]
fn malformed_packets_are_dropped() {
    let mut ch = ReliableChannel::new(ChannelConfig::default());
    for bytes in [vec![], vec![9u8, 1, 2], vec![1u8, 0, 0], vec![3u8, 1, 0, 0, 0, 7]] {
        let r = ch.receive("p", &bytes);
        assert!(r.released.is_empty());
        assert_eq!(r.reply, None);
    }
    assert!(ch.peers.is_empty());
}

#[test]
fn send_reliable_allocates_sequences_and_records_pending() {
    let mut ch = ReliableChannel::new(ChannelConfig::default());
    let p1 = ch.send_reliable("p", b"a", true, 10);
    let p2 = ch.send_reliable("p", b"b", false, 20);
    assert_eq!(p1, vec![1, 1, 0, 0, 0, b'a']);
    assert_eq!(p2, vec![2, 2, 0, 0, 0, b'b']);
    let peer = &ch.peers[0];
    assert_eq!(peer.sequence, 2);
    assert_eq!(peer.pending.len(), 2);
    assert_eq!(peer.pending[0].sequence, 1);
    assert_eq!(peer.pending[0].packet, p1);
    assert_eq!(peer.pending[0].last_sent_at, 10);
    assert_eq!(peer.pending[1].retry_count, 0);
}

#[test]
fn acknowledging_twice_is_the_same_as_once() {
    let mut ch = ReliableChannel::new(ChannelConfig::default());
    ch.send_reliable("p", b"a", true, 0);
    ch.send_reliable("p", b"b", true, 0);
    ch.acknowledge("p", 1);
    assert_eq!(ch.peers[0].pending.len(), 1);
    assert_eq!(ch.peers[0].pending[0].sequence, 2);
    ch.acknowledge("p", 1);
    assert_eq!(ch.peers[0].pending.len(), 1);
    assert_eq!(ch.peers[0].pending[0].sequence, 2);
    let r = ch.receive("p", &ack(2));
    assert!(r.released.is_empty());
    assert_eq!(r.reply, None);
    assert!(ch.peers[0].pending.is_empty());
    ch.acknowledge("unknown", 2);
    assert_eq!(ch.peers.len(), 1);
}

#[test]
fn unacknowledged_sequence_seven_is_retransmitted_five_times() {
    let mut ch = ReliableChannel::new(ChannelConfig::default());
    for s in 1..=6u32 {
        ch.send_reliable("server", b"x", true, 0);
        ch.acknowledge("server", s);
    }
    let packet = ch.send_reliable("server", b"seven", true, 0);
    assert_eq!(packet, reliable(b"seven", 7));
    assert!(ch.retransmit_due(100).is_empty());
    let mut resent_at = Vec::new();
    for t in [200u64, 400, 600, 800, 1000, 1200, 1400] {
        let due = ch.retransmit_due(t);
        if !due.is_empty() {
            assert_eq!(due, vec![("server".to_string(), packet.clone())]);
            resent_at.push(t);
        }
    }
    assert_eq!(resent_at, vec![200, 400, 600, 800, 1000]);
    assert!(ch.peers[0].pending.is_empty());
}

#[test]
fn retransmission_waits_a_full_interval() {
    let mut ch = ReliableChannel::new(ChannelConfig { retransmit_interval_ms: 50, max_retries: 2 });
    ch.send_reliable("p", b"a", true, 1000);
    assert!(ch.retransmit_due(1049).is_empty());
    assert_eq!(ch.retransmit_due(1050).len(), 1);
    assert!(ch.retransmit_due(1099).is_empty());
    assert_eq!(ch.retransmit_due(1100).len(), 1);
    assert!(ch.retransmit_due(1150).is_empty());
    assert!(ch.peers[0].pending.is_empty());
}

#[test]
fn sequence_numbers_wrap() {
    let mut p = PeerChannel::new("p".to_string());
    assert_eq!(p.next_sequence(), 1);
    p.sequence = u32::MAX;
    assert_eq!(p.next_sequence(), 0);
}

#[test]
fn forgetting_a_peer_stops_its_retransmissions() {
    let mut ch = ReliableChannel::new(ChannelConfig::default());
    ch.send_reliable("a", b"1", true, 0);
    ch.send_reliable("b", b"2", true, 0);
    ch.forget("a");
    let due = ch.retransmit_due(200);
    assert_eq!(due.len(), 1);
    assert_eq!(due[0].0, "b");
    assert_eq!(ch.position("a"), None);
    assert_eq!(ch.position("b"), Some(0));
}

#[test]
fn channel_config_defaults() {
    let c = ChannelConfig::default();
    assert_eq!(c.retransmit_interval_ms, 200);
    assert_eq!(c.max_retries, 5);
}

#[test]
fn message_types_encode_to_their_wire_form() {
    assert_eq!(MessageType::Unreliable(vec![5, 6]).encode(), vec![0, 5, 6]);
    assert_eq!(MessageType::Reliable(vec![9], 0x0102_0304).encode(), vec![1, 4, 3, 2, 1, 9]);
    assert_eq!(MessageType::ReliableUnordered(vec![], 7).encode(), vec![2, 7, 0, 0, 0]);
    assert_eq!(MessageType::Ack(256).encode(), vec![3, 0, 1, 0, 0]);
}

#[test]
fn message_types_decode_back() {
    let cases = vec![
        MessageType::Unreliable(vec![]),
        MessageType::Unreliable(vec![1, 2, 3]),
        MessageType::Reliable(vec![7, 7], u32::MAX),
        MessageType::ReliableUnordered(vec![0], 12),
        MessageType::Ack(99),
    ];
    for m in cases {
        let bytes = m.encode();
        let back = MessageType::decode(&bytes).expect("decodes");
        assert_eq!(back.encode(), bytes);
    }
    assert!(MessageType::decode(&[]).is_none());
    assert!(MessageType::decode(&[4, 0, 0, 0, 0]).is_none());
    assert!(MessageType::decode(&[1, 0, 0, 0]).is_none());
    assert!(MessageType::decode(&[3, 1, 0, 0, 0, 0]).is_none());
}

#[test]
fn opcode_framing() {
    assert_eq!(Opcode::Message.with_bytes(b"hi"), vec![3, b'h', b'i']);
    assert_eq!(Opcode::ClientConnected.with_bytes(&[]), vec![1]);
    assert_eq!(Opcode::from_byte(2), Some(Opcode::ClientDisconnected));
    assert_eq!(Opcode::from_byte(0), None);
    assert_eq!(Opcode::from_byte(4), None);
    assert_eq!(unframe(&[3, 9, 8]), Some((Opcode::Message, vec![9, 8])));
    assert_eq!(unframe(&[2]), Some((Opcode::ClientDisconnected, vec![])));
    assert_eq!(unframe(&[]), None);
    assert_eq!(unframe(&[7, 1]), None);
}

#[test]
fn length_prefix_framing() {
    assert_eq!(frame(b"ab"), Some(vec![0, 0, 0, 2, b'a', b'b']));
    assert_eq!(frame(&[]), Some(vec![0, 0, 0, 0]));
    let mut stream = frame(b"hello").unwrap();
    stream.extend(frame(b"!").unwrap());
    let (first, used) = take_frame(&stream).unwrap();
    assert_eq!(first, b"hello".to_vec());
    assert_eq!(used, 9);
    let (second, used2) = take_frame(&stream[used..]).unwrap();
    assert_eq!(second, b"!".to_vec());
    assert_eq!(used2, 5);
    assert_eq!(take_frame(&[0, 0, 1]), None);
    assert_eq!(take_frame(&[0, 0, 1, 0, 1, 2]), None);
    assert_eq!(take_frame(&[0, 0, 0, 1, 7]), Some((vec![7], 5)));
}

#[test]
fn later_ordered_arrival_replaces_buffered_payload() {
    let mut ch = ReliableChannel::new(ChannelConfig::default());
    assert!(ch.handle_reliable_message("p", 2, vec![2], true).is_empty());
    assert!(ch.handle_reliable_message("p", 2, vec![9], true).is_empty());
    assert_eq!(ch.handle_reliable_message("p", 1, vec![1], true), vec![vec![1u8], vec![9u8]]);
    assert!(ch.handle_reliable_message("p", 2, vec![7], true).is_empty());
}

#[test]
fn unordered_arrival_on_a_taken_slot_is_a_duplicate() {
    let mut ch = ReliableChannel::new(ChannelConfig::default());
    assert_eq!(ch.handle_reliable_message("p", 3, vec![3], false), vec![vec![3u8]]);
    assert!(ch.handle_reliable_message("p", 3, vec![3], true).is_empty());
    assert!(ch.handle_reliable_message("p", 2, vec![2], true).is_empty());
    assert!(ch.handle_reliable_message("p", 2, vec![8], false).is_empty());
    assert_eq!(ch.handle_reliable_message("p", 1, vec![1], true), vec![vec![1u8], vec![2u8]]);
}

#[test]
fn empty_payloads_are_not_released() {
    let mut ch = ReliableChannel::new(ChannelConfig::default());
    let r = ch.receive("p", &[0]);
    assert!(r.released.is_empty());
    assert_eq!(r.reply, None);
    let r = ch.receive("p", &reliable(&[], 1));
    assert!(r.released.is_empty());
    assert_eq!(r.reply, Some(ack(1)));
    // the empty message still took its place in the sequence
    let r = ch.receive("p", &reliable(b"b", 2));
    assert_eq!(r.released, vec![b"b".to_vec()]);
}
