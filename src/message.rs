use vstd::bytes::{
    lemma_auto_spec_u32_to_from_le_bytes, spec_u32_from_le_bytes, spec_u32_to_le_bytes,
    u32_from_le_bytes, u32_to_le_bytes,
};
use vstd::prelude::*;

use crate::buf::{append_all, copy_range};

verus! {

/// Kind byte of a packet sent without any delivery guarantee.
pub const KIND_UNRELIABLE: u8 = 0;

/// Kind byte of a reliable packet that is released in sequence order.
pub const KIND_RELIABLE: u8 = 1;

/// Kind byte of a reliable packet that is released as soon as it arrives.
pub const KIND_RELIABLE_UNORDERED: u8 = 2;

/// Kind byte of an acknowledgment.
pub const KIND_ACK: u8 = 3;

/// A packet of the reliable delivery engine, as it travels over an unreliable medium.
///
/// On the wire it is the kind byte, then (for every kind but `Unreliable`) the
/// sequence number as four little-endian bytes, then the payload (none for `Ack`).
#[derive(Debug)]
pub enum MessageType {
    Unreliable(Vec<u8>),
    Reliable(Vec<u8>, u32),
    ReliableUnordered(Vec<u8>, u32),
    Ack(u32),
}

/// A packet of the reliable delivery engine, as the model sees it.
pub enum Packet {
    Unreliable(Seq<u8>),
    Reliable(Seq<u8>, u32),
    ReliableUnordered(Seq<u8>, u32),
    Ack(u32),
}

impl Packet {
    /// The bytes that stand for this packet on the wire.
    pub open spec fn encode(self) -> Seq<u8> {
        match self {
            Packet::Unreliable(p) => seq![KIND_UNRELIABLE] + p,
            Packet::Reliable(p, s) => seq![KIND_RELIABLE] + spec_u32_to_le_bytes(s) + p,
            Packet::ReliableUnordered(p, s) => seq![KIND_RELIABLE_UNORDERED]
                + spec_u32_to_le_bytes(s) + p,
            Packet::Ack(s) => seq![KIND_ACK] + spec_u32_to_le_bytes(s),
        }
    }
}

/// The sequence number held in `b[1..5]`.
pub open spec fn header_seq(b: Seq<u8>) -> u32 {
    spec_u32_from_le_bytes(b.subrange(1, 5))
}

/// The packet that `b` stands for: `None` for an unknown kind byte, a header too
/// short for its kind, or an acknowledgment with trailing bytes.
pub open spec fn spec_decode(b: Seq<u8>) -> Option<Packet> {
    if b.len() == 0 {
        None
    } else if b[0] == KIND_UNRELIABLE {
        Some(Packet::Unreliable(b.subrange(1, b.len() as int)))
    } else if b.len() < 5 {
        None
    } else if b[0] == KIND_RELIABLE {
        Some(Packet::Reliable(b.subrange(5, b.len() as int), header_seq(b)))
    } else if b[0] == KIND_RELIABLE_UNORDERED {
        Some(Packet::ReliableUnordered(b.subrange(5, b.len() as int), header_seq(b)))
    } else if b[0] == KIND_ACK && b.len() == 5 {
        Some(Packet::Ack(header_seq(b)))
    } else {
        None
    }
}

impl View for MessageType {
    type V = Packet;

    open spec fn view(&self) -> Packet {
        match self {
            MessageType::Unreliable(p) => Packet::Unreliable(p@),
            MessageType::Reliable(p, s) => Packet::Reliable(p@, *s),
            MessageType::ReliableUnordered(p, s) => Packet::ReliableUnordered(p@, *s),
            MessageType::Ack(s) => Packet::Ack(*s),
        }
    }
}

impl MessageType {
    pub fn encode(&self) -> (r: Vec<u8>)
        ensures
            r@ == self@.encode(),
    {
        let mut out: Vec<u8> = Vec::new();
        match self {
            MessageType::Unreliable(p) => {
                out.push(KIND_UNRELIABLE);
                append_all(&mut out, p.as_slice());
            },
            MessageType::Reliable(p, s) => {
                out.push(KIND_RELIABLE);
                let sb = u32_to_le_bytes(*s);
                append_all(&mut out, sb.as_slice());
                append_all(&mut out, p.as_slice());
            },
            MessageType::ReliableUnordered(p, s) => {
                out.push(KIND_RELIABLE_UNORDERED);
                let sb = u32_to_le_bytes(*s);
                append_all(&mut out, sb.as_slice());
                append_all(&mut out, p.as_slice());
            },
            MessageType::Ack(s) => {
                out.push(KIND_ACK);
                let sb = u32_to_le_bytes(*s);
                append_all(&mut out, sb.as_slice());
            },
        }
        proof {
            assert(out@ =~= self@.encode());
        }
        out
    }

    /// Reads a packet; `None` for bytes that no packet encodes to.
    pub fn decode(bytes: &[u8]) -> (r: Option<MessageType>)
        ensures
            match r {
                Some(m) => spec_decode(bytes@) == Some(m@),
                None => spec_decode(bytes@) is None,
            },
    {
        let n = bytes.len();
        if n == 0 {
            return None;
        }
        let kind = bytes[0];
        if kind == KIND_UNRELIABLE {
            return Some(MessageType::Unreliable(copy_range(bytes, 1, n)));
        }
        if n < 5 {
            return None;
        }
        let sb = copy_range(bytes, 1, 5);
        let s = u32_from_le_bytes(sb.as_slice());
        if kind == KIND_RELIABLE {
            Some(MessageType::Reliable(copy_range(bytes, 5, n), s))
        } else if kind == KIND_RELIABLE_UNORDERED {
            Some(MessageType::ReliableUnordered(copy_range(bytes, 5, n), s))
        } else if kind == KIND_ACK && n == 5 {
            Some(MessageType::Ack(s))
        } else {
            None
        }
    }
}

/// Decoding undoes encoding, and only encodings decode: `b` reads as packet `p`
/// exactly when `b` is the encoding of `p`.
pub proof fn lemma_decode_encode(p: Packet, b: Seq<u8>)
    ensures
        spec_decode(b) == Some(p) <==> b == p.encode(),
{
    lemma_auto_spec_u32_to_from_le_bytes();
    let e = p.encode();
    match p {
        Packet::Unreliable(q) => {
            assert(e.subrange(1, e.len() as int) =~= q);
        },
        Packet::Reliable(q, s) => {
            assert(e.subrange(1, 5) =~= spec_u32_to_le_bytes(s));
            assert(e.subrange(5, e.len() as int) =~= q);
        },
        Packet::ReliableUnordered(q, s) => {
            assert(e.subrange(1, 5) =~= spec_u32_to_le_bytes(s));
            assert(e.subrange(5, e.len() as int) =~= q);
        },
        Packet::Ack(s) => {
            assert(e.subrange(1, 5) =~= spec_u32_to_le_bytes(s));
        },
    }
    assert(spec_decode(e) == Some(p));
    if spec_decode(b) == Some(p) {
        match p {
            Packet::Unreliable(q) => {
                assert(b =~= e);
            },
            Packet::Reliable(q, s) => {
                let h = b.subrange(1, 5);
                assert(spec_u32_to_le_bytes(spec_u32_from_le_bytes(h)) == h);
                assert(b =~= seq![b[0]] + h + b.subrange(5, b.len() as int));
                assert(b =~= e);
            },
            Packet::ReliableUnordered(q, s) => {
                let h = b.subrange(1, 5);
                assert(spec_u32_to_le_bytes(spec_u32_from_le_bytes(h)) == h);
                assert(b =~= seq![b[0]] + h + b.subrange(5, b.len() as int));
                assert(b =~= e);
            },
            Packet::Ack(s) => {
                let h = b.subrange(1, 5);
                assert(spec_u32_to_le_bytes(spec_u32_from_le_bytes(h)) == h);
                assert(b =~= seq![b[0]] + h);
                assert(b =~= e);
            },
        }
    }
}

} // verus!
