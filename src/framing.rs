use vstd::bytes::{
    lemma_auto_spec_u32_to_from_le_bytes, spec_u32_from_le_bytes, spec_u32_to_le_bytes,
    u32_from_le_bytes, u32_to_le_bytes,
};
use vstd::prelude::*;

use crate::buf::{append_all, copy_range};

verus! {

/// `n` as four big-endian bytes.
pub open spec fn be_bytes(n: u32) -> Seq<u8> {
    let le = spec_u32_to_le_bytes(n);
    seq![le[3], le[2], le[1], le[0]]
}

/// The number held big-endian in the first four bytes of `b`.
pub open spec fn be_value(b: Seq<u8>) -> u32 {
    spec_u32_from_le_bytes(seq![b[3], b[2], b[1], b[0]])
}

/// A message on a stream: its length as four big-endian bytes, then its bytes.
pub open spec fn length_prefixed(p: Seq<u8>) -> Seq<u8> {
    be_bytes(p.len() as u32) + p
}

/// Frames a message for a stream; `None` for one too long for the length header.
pub fn frame(payload: &[u8]) -> (r: Option<Vec<u8>>)
    ensures
        payload@.len() <= u32::MAX ==> (r matches Some(v) && v@ == length_prefixed(payload@)),
        payload@.len() > u32::MAX ==> r is None,
{
    if payload.len() > 0xffff_ffffusize {
        return None;
    }
    let le = u32_to_le_bytes(payload.len() as u32);
    let mut out: Vec<u8> = Vec::new();
    out.push(le[3]);
    out.push(le[2]);
    out.push(le[1]);
    out.push(le[0]);
    append_all(&mut out, payload);
    proof {
        assert(out@ =~= length_prefixed(payload@));
    }
    Some(out)
}

/// Takes the first complete message off the front of stream bytes `buf`: its payload
/// and how many bytes it took. `None` while the header or the payload is incomplete.
pub fn take_frame(buf: &[u8]) -> (r: Option<(Vec<u8>, usize)>)
    ensures
        match r {
            Some((p, used)) => buf@.len() >= 4 && used == 4 + be_value(buf@) && used
                <= buf@.len() && p@ == buf@.subrange(4, used as int),
            None => buf@.len() < 4 || buf@.len() < 4 + be_value(buf@),
        },
{
    if buf.len() < 4 {
        return None;
    }
    let mut le: Vec<u8> = Vec::new();
    le.push(buf[3]);
    le.push(buf[2]);
    le.push(buf[1]);
    le.push(buf[0]);
    proof {
        assert(le@ =~= seq![buf@[3], buf@[2], buf@[1], buf@[0]]);
    }
    let n = u32_from_le_bytes(le.as_slice());
    let need: u64 = 4 + n as u64;
    if (buf.len() as u64) < need {
        return None;
    }
    let used = need as usize;
    Some((copy_range(buf, 4, used), used))
}

/// A framed message reads back whole from the front of the stream, whatever follows
/// it.
pub proof fn lemma_take_framed(p: Seq<u8>, rest: Seq<u8>)
    requires
        p.len() <= u32::MAX,
    ensures
        ({
            let b = length_prefixed(p) + rest;
            &&& be_value(b) == p.len()
            &&& b.subrange(4, 4 + p.len() as int) == p
        }),
{
    lemma_auto_spec_u32_to_from_le_bytes();
    let b = length_prefixed(p) + rest;
    let le = spec_u32_to_le_bytes(p.len() as u32);
    assert(seq![b[3], b[2], b[1], b[0]] =~= le);
    assert(b.subrange(4, 4 + p.len() as int) =~= p);
}

} // verus!
