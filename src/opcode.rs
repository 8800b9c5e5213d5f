use vstd::prelude::*;

use crate::buf::{append_all, copy_range};

verus! {

/// The one-byte tag in front of every message that session layers exchange.
#[derive(Clone, Copy, Debug, PartialEq, Eq, Structural)]
pub enum Opcode {
    ClientConnected,
    ClientDisconnected,
    Message,
}

impl Opcode {
    /// The byte that stands for this opcode on the wire.
    pub open spec fn spec_byte(self) -> u8 {
        match self {
            Opcode::ClientConnected => 1,
            Opcode::ClientDisconnected => 2,
            Opcode::Message => 3,
        }
    }

    /// The opcode that a byte stands for, if any.
    pub open spec fn spec_from_byte(b: u8) -> Option<Opcode> {
        if b == 1 {
            Some(Opcode::ClientConnected)
        } else if b == 2 {
            Some(Opcode::ClientDisconnected)
        } else if b == 3 {
            Some(Opcode::Message)
        } else {
            None
        }
    }

    pub fn byte(&self) -> (r: u8)
        ensures
            r == self.spec_byte(),
    {
        match self {
            Opcode::ClientConnected => 1,
            Opcode::ClientDisconnected => 2,
            Opcode::Message => 3,
        }
    }

    /// Reads an opcode byte; any byte but 1, 2 and 3 is malformed.
    pub fn from_byte(b: u8) -> (r: Option<Opcode>)
        ensures
            r == Self::spec_from_byte(b),
    {
        if b == 1 {
            Some(Opcode::ClientConnected)
        } else if b == 2 {
            Some(Opcode::ClientDisconnected)
        } else if b == 3 {
            Some(Opcode::Message)
        } else {
            None
        }
    }

    /// The message made of this opcode followed by `bytes`.
    pub fn with_bytes(&self, bytes: &[u8]) -> (r: Vec<u8>)
        ensures
            r@ == framed(*self, bytes@),
    {
        let mut out: Vec<u8> = Vec::new();
        out.push(self.byte());
        append_all(&mut out, bytes);
        proof {
            assert(out@ =~= framed(*self, bytes@));
        }
        out
    }
}

/// A session message: the opcode byte, then the payload.
pub open spec fn framed(op: Opcode, payload: Seq<u8>) -> Seq<u8> {
    seq![op.spec_byte()] + payload
}

/// What a received session message carries: `None` for an empty or malformed
/// message, else its opcode and the bytes after it.
pub open spec fn spec_unframe(msg: Seq<u8>) -> Option<(Opcode, Seq<u8>)> {
    if msg.len() == 0 {
        None
    } else {
        match Opcode::spec_from_byte(msg[0]) {
            Some(op) => Some((op, msg.subrange(1, msg.len() as int))),
            None => None,
        }
    }
}

/// Splits a received session message into its opcode and the bytes after it.
pub fn unframe(msg: &[u8]) -> (r: Option<(Opcode, Vec<u8>)>)
    ensures
        match (r, spec_unframe(msg@)) {
            (Some((op, rest)), Some((sop, srest))) => op == sop && rest@ == srest,
            (None, None) => true,
            _ => false,
        },
{
    if msg.len() == 0 {
        return None;
    }
    match Opcode::from_byte(msg[0]) {
        Some(op) => {
            let rest = copy_range(msg, 1, msg.len());
            Some((op, rest))
        },
        None => None,
    }
}

/// Framing and unframing are inverse: a framed message reads back as the
/// opcode and payload it was made of.
pub proof fn lemma_unframe_framed(op: Opcode, payload: Seq<u8>)
    ensures
        spec_unframe(framed(op, payload)) == Some((op, payload)),
{
    let m = framed(op, payload);
    assert(m[0] == op.spec_byte());
    assert(m.subrange(1, m.len() as int) =~= payload);
}

} // verus!
