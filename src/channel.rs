use std::collections::HashMap;
use vstd::prelude::*;

use crate::message::{spec_decode, MessageType, Packet};

verus! {

broadcast use vstd::std_specs::hash::group_hash_axioms;

// ---------------------------------------------------------------------------
// Model
// ---------------------------------------------------------------------------

/// The receive side of one peer's reliable stream.
///
/// Both reliable kinds share one sequence space per sender. Every sequence below
/// `next_expected` has been handled; `buffer` holds the sequences that arrived ahead
/// of it: an ordered payload waiting for its turn (`Some`), or the mark of an
/// unordered one that was released on arrival (`None`).
pub struct Inbound {
    pub next_expected: nat,
    pub buffer: Map<u32, Option<Seq<u8>>>,
}

/// The receive state of a fresh peer: sequences start at 1.
pub open spec fn fresh_inbound() -> Inbound {
    Inbound { next_expected: 1, buffer: Map::empty() }
}

/// Every buffered sequence lies strictly above the next expected one, which never
/// passes one beyond the largest sequence.
pub open spec fn inbound_wf(st: Inbound) -> bool {
    &&& 1 <= st.next_expected <= u32::MAX as nat + 1
    &&& st.buffer.dom().finite()
    &&& forall|k: u32| #[trigger] st.buffer.contains_key(k) ==> k as nat > st.next_expected
}

/// Releases, from `next` on, every consecutive sequence that is buffered; returns the
/// new next expected sequence, the buffer without them and the payloads released.
pub open spec fn release(next: nat, buf: Map<u32, Option<Seq<u8>>>) -> (nat, Map<
    u32,
    Option<Seq<u8>>,
>, Seq<Seq<u8>>)
    decreases u32::MAX as int + 1 - next,
{
    if next <= u32::MAX as nat && buf.contains_key(next as u32) {
        let r = release(next + 1, buf.remove(next as u32));
        match buf[next as u32] {
            Some(p) => (r.0, r.1, seq![p] + r.2),
            None => r,
        }
    } else {
        (next, buf, Seq::empty())
    }
}

/// A sequence that was handled already: it is below the next expected one, or its
/// slot is taken by an unordered payload that was released on arrival (and, for an
/// unordered arrival, by anything at all). It is acknowledged again and released no
/// second time. An ordered arrival for a slot that holds a waiting ordered payload is
/// no duplicate: it replaces that payload.
pub open spec fn is_duplicate(st: Inbound, seq: u32, ordered: bool) -> bool {
    (seq as nat) < st.next_expected || (st.buffer.contains_key(seq) && (!ordered
        || st.buffer[seq] is None))
}

/// The arrival of reliable sequence `seq` carrying `payload`: the new receive state
/// and the payloads released to the application, in order.
pub open spec fn inbound_step(st: Inbound, seq: u32, payload: Seq<u8>, ordered: bool) -> (
    Inbound,
    Seq<Seq<u8>>,
) {
    if is_duplicate(st, seq, ordered) {
        (st, Seq::empty())
    } else if ordered {
        let r = release(st.next_expected, st.buffer.insert(seq, Some(payload)));
        (Inbound { next_expected: r.0, buffer: r.1 }, r.2)
    } else {
        let r = release(st.next_expected, st.buffer.insert(seq, None));
        (Inbound { next_expected: r.0, buffer: r.1 }, seq![payload] + r.2)
    }
}

/// A reliable packet that waits for its acknowledgment.
pub struct PendingModel {
    pub sequence: u32,
    pub packet: Seq<u8>,
    pub last_sent_at: u64,
    pub retry_count: u32,
}

/// The pending table without the entries of sequence `seq`.
pub open spec fn acked(pending: Seq<PendingModel>, seq: u32) -> Seq<PendingModel>
    decreases pending.len(),
{
    if pending.len() == 0 {
        pending
    } else {
        let rest = acked(pending.drop_first(), seq);
        if pending[0].sequence == seq {
            rest
        } else {
            seq![pending[0]] + rest
        }
    }
}

/// An entry is due when the retransmission interval has passed since it was last sent.
pub open spec fn is_due(e: PendingModel, now: u64, interval: u64) -> bool {
    now as int >= e.last_sent_at as int + interval as int
}

/// One entry at a sweep: kept as it is, retransmitted (the second component), or
/// dropped (`None`) once its retries are spent.
pub open spec fn sweep_entry(e: PendingModel, now: u64, interval: u64, max_retries: u32) -> (
    Option<PendingModel>,
    bool,
) {
    if !is_due(e, now, interval) {
        (Some(e), false)
    } else if e.retry_count < max_retries {
        (
            Some(
                PendingModel {
                    sequence: e.sequence,
                    packet: e.packet,
                    last_sent_at: now,
                    retry_count: (e.retry_count + 1) as u32,
                },
            ),
            true,
        )
    } else {
        (None, false)
    }
}

/// A sweep of the pending table at time `now`: the entries that stay, and the
/// packets retransmitted, in table order.
pub open spec fn sweep(pending: Seq<PendingModel>, now: u64, interval: u64, max_retries: u32) -> (
    Seq<PendingModel>,
    Seq<Seq<u8>>,
)
    decreases pending.len(),
{
    if pending.len() == 0 {
        (Seq::empty(), Seq::empty())
    } else {
        let rest = sweep(pending.drop_first(), now, interval, max_retries);
        let e = sweep_entry(pending[0], now, interval, max_retries);
        let kept = match e.0 {
            Some(k) => seq![k] + rest.0,
            None => rest.0,
        };
        let sent = if e.1 {
            seq![pending[0].packet] + rest.1
        } else {
            rest.1
        };
        (kept, sent)
    }
}

// ---------------------------------------------------------------------------
// Laws of the model
// ---------------------------------------------------------------------------

/// What the release loop does: it takes the run of consecutive buffered sequences
/// starting at `next`, and nothing else.
pub proof fn lemma_release(next: nat, buf: Map<u32, Option<Seq<u8>>>)
    requires
        1 <= next <= u32::MAX as nat + 1,
        buf.dom().finite(),
        forall|k: u32| #[trigger] buf.contains_key(k) ==> k as nat >= next,
    ensures
        ({
            let r = release(next, buf);
            &&& next <= r.0 <= u32::MAX as nat + 1
            &&& forall|n: nat| next <= n < r.0 ==> buf.contains_key(#[trigger] (n as u32))
            &&& r.0 <= u32::MAX as nat ==> !buf.contains_key(r.0 as u32)
            &&& r.1.dom().finite()
            &&& forall|k: u32| #[trigger]
                r.1.contains_key(k) <==> (buf.contains_key(k) && k as nat >= r.0)
            &&& forall|k: u32| #[trigger] r.1.contains_key(k) ==> r.1[k] == buf[k]
            &&& (forall|k: u32| #[trigger] buf.contains_key(k) ==> buf[k] is Some) ==> r.2
                == Seq::new((r.0 - next) as nat, |j: int| buf[(next + j) as u32]->Some_0)
        }),
    decreases u32::MAX as int + 1 - next,
{
    if next <= u32::MAX as nat && buf.contains_key(next as u32) {
        let b2 = buf.remove(next as u32);
        assert forall|k: u32| #[trigger] b2.contains_key(k) implies k as nat >= next + 1 by {
            assert(buf.contains_key(k));
            assert(k != next as u32);
        }
        lemma_release(next + 1, b2);
        let r2 = release(next + 1, b2);
        let r = release(next, buf);
        assert forall|n: nat| next <= n < r.0 implies buf.contains_key(#[trigger] (n as u32)) by {
            if n > next {
                assert(b2.contains_key(n as u32));
            }
        }
        if forall|k: u32| #[trigger] buf.contains_key(k) ==> buf[k] is Some {
            assert forall|k: u32| #[trigger] b2.contains_key(k) implies b2[k] is Some by {
                assert(buf.contains_key(k));
            }
            let p = buf[next as u32]->Some_0;
            assert(r.2 == seq![p] + r2.2);
            assert(r.2 =~= Seq::new((r.0 - next) as nat, |j: int| buf[(next + j) as u32]->Some_0))
                by {
                assert forall|j: int| 0 <= j < r.0 - next implies r.2[j] == buf[(next
                    + j) as u32]->Some_0 by {
                    if j > 0 {
                        assert(r2.2[j - 1] == b2[(next + 1 + (j - 1)) as u32]->Some_0);
                        assert((next + 1 + (j - 1)) as u32 != next as u32);
                    }
                }
            }
        }
    }
}

/// The receive state stays well formed at every arrival.
pub proof fn lemma_inbound_step_wf(st: Inbound, seq: u32, payload: Seq<u8>, ordered: bool)
    requires
        inbound_wf(st),
    ensures
        inbound_wf(inbound_step(st, seq, payload, ordered).0),
{
    if !is_duplicate(st, seq, ordered) {
        let b1 = st.buffer.insert(seq, if ordered { Some(payload) } else { None });
        assert forall|k: u32| #[trigger] b1.contains_key(k) implies k as nat >= st.next_expected by {
            if k != seq {
                assert(st.buffer.contains_key(k));
            }
        }
        lemma_release(st.next_expected, b1);
        let r = release(st.next_expected, b1);
        assert forall|k: u32| #[trigger] r.1.contains_key(k) implies k as nat > r.0 by {
            assert(b1.contains_key(k));
        }
    }
}

/// Redelivering a sequence that was already released changes nothing and releases
/// nothing.
pub proof fn lemma_duplicate_suppressed(st: Inbound, seq: u32, payload: Seq<u8>, ordered: bool)
    requires
        (seq as nat) < st.next_expected,
    ensures
        inbound_step(st, seq, payload, ordered) == (st, Seq::<Seq<u8>>::empty()),
{
}

/// The receiver of one peer, starting with next expected sequence `start` and an
/// empty buffer, fed the ordered deliveries `deliveries` (sequence numbers; sequence
/// `s` carries `payloads[s - start]`): its state and everything released, in order.
pub open spec fn run_ordered(start: nat, deliveries: Seq<u32>, payloads: Seq<Seq<u8>>) -> (
    Inbound,
    Seq<Seq<u8>>,
)
    decreases deliveries.len(),
{
    if deliveries.len() == 0 {
        (Inbound { next_expected: start, buffer: Map::empty() }, Seq::empty())
    } else {
        let r = run_ordered(start, deliveries.drop_last(), payloads);
        let s = deliveries.last();
        let st = inbound_step(r.0, s, payloads[s - start], true);
        (st.0, r.1 + st.1)
    }
}

/// What holds after any prefix of ordered deliveries of the messages
/// `start..start + n`.
proof fn lemma_run_ordered_inv(start: nat, deliveries: Seq<u32>, payloads: Seq<Seq<u8>>)
    requires
        1 <= start,
        start + payloads.len() <= u32::MAX as nat + 1,
        forall|i: int|
            0 <= i < deliveries.len() ==> start <= #[trigger] deliveries[i] < start
                + payloads.len(),
    ensures
        ({
            let r = run_ordered(start, deliveries, payloads);
            &&& inbound_wf(r.0)
            &&& start <= r.0.next_expected <= start + payloads.len()
            &&& r.1 == payloads.subrange(0, r.0.next_expected - start)
            &&& forall|k: u32| #[trigger]
                r.0.buffer.contains_key(k) <==> (k as nat >= r.0.next_expected && exists|i: int|
                    0 <= i < deliveries.len() && deliveries[i] == k)
            &&& forall|k: u32| #[trigger]
                r.0.buffer.contains_key(k) ==> r.0.buffer[k] == Some(payloads[k - start])
        }),
    decreases deliveries.len(),
{
    let n = payloads.len();
    if deliveries.len() == 0 {
        assert(payloads.subrange(0, 0) =~= Seq::<Seq<u8>>::empty());
    } else {
        let prev = deliveries.drop_last();
        lemma_run_ordered_inv(start, prev, payloads);
        let r0 = run_ordered(start, prev, payloads);
        let st = r0.0;
        let s = deliveries.last();
        let p = payloads[s - start];
        let r = run_ordered(start, deliveries, payloads);
        assert(deliveries[deliveries.len() - 1] == s);
        if is_duplicate(st, s, true) {
            assert(r.0 == st);
            assert(r.1 =~= r0.1);
            assert forall|k: u32| #[trigger] r.0.buffer.contains_key(k) <==> (k as nat
                >= r.0.next_expected && exists|i: int| 0 <= i < deliveries.len() && deliveries[i] == k) by {
                if k as nat >= r.0.next_expected && exists|i: int|
                    0 <= i < deliveries.len() && deliveries[i] == k {
                    let i = choose|i: int| 0 <= i < deliveries.len() && deliveries[i] == k;
                    if i < prev.len() {
                        assert(prev[i] == k);
                    }
                }
                if r.0.buffer.contains_key(k) {
                    let i = choose|i: int| 0 <= i < prev.len() && prev[i] == k;
                    assert(deliveries[i] == k);
                }
            }
        } else {
            let b1 = st.buffer.insert(s, Some(p));
            assert forall|k: u32| #[trigger] b1.contains_key(k) implies k as nat >= st.next_expected by {
                if k != s {
                    assert(st.buffer.contains_key(k));
                }
            }
            assert forall|k: u32| #[trigger] b1.contains_key(k) implies b1[k] is Some by {
                if k != s {
                    assert(st.buffer.contains_key(k));
                }
            }
            lemma_release(st.next_expected, b1);
            let rel = release(st.next_expected, b1);
            assert(r.0.next_expected == rel.0);
            assert(r.0.buffer == rel.1);
            // every released sequence was buffered, so it lies below start + n
            if rel.0 > st.next_expected {
                let last: nat = (rel.0 - 1) as nat;
                assert(b1.contains_key(last as u32));
                if last as u32 != s {
                    assert(st.buffer.contains_key(last as u32));
                    let i = choose|i: int| 0 <= i < prev.len() && prev[i] == last as u32;
                    assert(start <= prev[i] < start + n);
                }
            }
            assert(rel.0 <= start + n);
            assert forall|k: u32| #[trigger] rel.1.contains_key(k) implies k as nat > rel.0 by {
                assert(b1.contains_key(k));
            }
            assert(r.1 =~= payloads.subrange(0, rel.0 - start)) by {
                assert(r.1 == r0.1 + rel.2);
                assert forall|j: int| 0 <= j < rel.0 - start implies r.1[j] == payloads[j] by {
                    if j >= st.next_expected - start {
                        let q = j - (st.next_expected - start);
                        let key = (st.next_expected + q) as u32;
                        assert(rel.2[q] == b1[key]->Some_0);
                        assert(b1.contains_key(key));
                        if key != s {
                            assert(st.buffer.contains_key(key));
                        }
                    }
                }
            }
            assert forall|k: u32| #[trigger] r.0.buffer.contains_key(k) <==> (k as nat
                >= r.0.next_expected && exists|i: int| 0 <= i < deliveries.len() && deliveries[i] == k) by {
                if k as nat >= r.0.next_expected && exists|i: int|
                    0 <= i < deliveries.len() && deliveries[i] == k {
                    let i = choose|i: int| 0 <= i < deliveries.len() && deliveries[i] == k;
                    if i < prev.len() {
                        assert(prev[i] == k);
                        assert(st.buffer.contains_key(k));
                    }
                    assert(b1.contains_key(k));
                }
                if r.0.buffer.contains_key(k) {
                    assert(b1.contains_key(k));
                    if k != s {
                        let i = choose|i: int| 0 <= i < prev.len() && prev[i] == k;
                        assert(deliveries[i] == k);
                    }
                }
            }
            assert forall|k: u32| #[trigger] r.0.buffer.contains_key(k) implies r.0.buffer[k]
                == Some(payloads[k - start]) by {
                assert(b1.contains_key(k));
                if k != s {
                    assert(st.buffer.contains_key(k));
                }
            }
        }
    }
}

/// Ordered delivery: starting from any next expected sequence `start` with nothing
/// buffered, whatever the order in which the messages `start..start + n` arrive, and
/// however often each arrives, once every one of them has arrived the application has
/// been handed their payloads exactly once each, in sequence order; the receiver then
/// expects `start + n` and holds nothing.
pub proof fn lemma_ordered_delivery(start: nat, deliveries: Seq<u32>, payloads: Seq<Seq<u8>>)
    requires
        1 <= start,
        start + payloads.len() <= u32::MAX as nat + 1,
        forall|i: int|
            0 <= i < deliveries.len() ==> start <= #[trigger] deliveries[i] < start
                + payloads.len(),
        forall|k: u32|
            start <= k < start + payloads.len() ==> #[trigger] deliveries.contains(k),
    ensures
        run_ordered(start, deliveries, payloads).1 == payloads,
        run_ordered(start, deliveries, payloads).0.next_expected == start + payloads.len(),
        run_ordered(start, deliveries, payloads).0.buffer.dom() == Set::<u32>::empty(),
{
    lemma_run_ordered_inv(start, deliveries, payloads);
    let r = run_ordered(start, deliveries, payloads);
    let e = r.0.next_expected;
    if e < start + payloads.len() {
        assert(deliveries.contains(e as u32));
        let i = choose|i: int| 0 <= i < deliveries.len() && deliveries[i] == e as u32;
        assert(r.0.buffer.contains_key(e as u32));
    }
    assert(payloads.subrange(0, payloads.len() as int) =~= payloads);
    assert forall|k: u32| !r.0.buffer.contains_key(k) by {
        if r.0.buffer.contains_key(k) {
            let i = choose|i: int| 0 <= i < deliveries.len() && deliveries[i] == k;
            assert(start <= deliveries[i] < start + payloads.len());
        }
    }
    assert(r.0.buffer.dom() =~= Set::<u32>::empty());
}

/// Acknowledging a sequence twice has the effect of acknowledging it once: its
/// entries are gone after the first.
pub proof fn lemma_ack_idempotent(pending: Seq<PendingModel>, seq: u32)
    ensures
        acked(acked(pending, seq), seq) == acked(pending, seq),
        forall|i: int|
            0 <= i < acked(pending, seq).len() ==> #[trigger] acked(pending, seq)[i].sequence
                != seq,
    decreases pending.len(),
{
    if pending.len() > 0 {
        lemma_ack_idempotent(pending.drop_first(), seq);
        let rest = acked(pending.drop_first(), seq);
        if pending[0].sequence != seq {
            let a = seq![pending[0]] + rest;
            assert(a.drop_first() =~= rest);
            assert forall|i: int| 0 <= i < a.len() implies #[trigger] a[i].sequence != seq by {
                if i > 0 {
                    assert(a[i] == rest[i - 1]);
                }
            }
        }
    }
}

/// Sweeping a table of one entry is sweeping that entry: what the retry laws below
/// say of an entry is what the table does with it.
pub proof fn lemma_sweep_single(e: PendingModel, now: u64, interval: u64, max_retries: u32)
    ensures
        ({
            let t = sweep(seq![e], now, interval, max_retries);
            let r = sweep_entry(e, now, interval, max_retries);
            &&& t.0 == match r.0 {
                Some(k) => seq![k],
                None => Seq::<PendingModel>::empty(),
            }
            &&& t.1 == if r.1 {
                seq![e.packet]
            } else {
                Seq::<Seq<u8>>::empty()
            }
        }),
{
    let t = sweep(seq![e], now, interval, max_retries);
    assert(seq![e].drop_first() =~= Seq::<PendingModel>::empty());
    let rest = sweep(seq![e].drop_first(), now, interval, max_retries);
    assert(rest.0 == Seq::<PendingModel>::empty() && rest.1 == Seq::<Seq<u8>>::empty());
    match sweep_entry(e, now, interval, max_retries).0 {
        Some(k) => assert(t.0 =~= seq![k]),
        None => assert(t.0 =~= Seq::<PendingModel>::empty()),
    }
    if sweep_entry(e, now, interval, max_retries).1 {
        assert(t.1 =~= seq![e.packet]);
    } else {
        assert(t.1 =~= Seq::<Seq<u8>>::empty());
    }
}

/// One entry swept at each of `times`: what is left of it, and the times at which it
/// was retransmitted.
pub open spec fn sweep_entry_at(
    e: Option<PendingModel>,
    times: Seq<u64>,
    interval: u64,
    max_retries: u32,
) -> (Option<PendingModel>, Seq<u64>)
    decreases times.len(),
{
    if times.len() == 0 {
        (e, Seq::empty())
    } else {
        let r = sweep_entry_at(e, times.drop_last(), interval, max_retries);
        match r.0 {
            None => r,
            Some(x) => {
                let t = times.last();
                let s = sweep_entry(x, t, interval, max_retries);
                (s.0, if s.1 {
                    r.1.push(t)
                } else {
                    r.1
                })
            },
        }
    }
}

/// Retry ceiling: however often a packet whose acknowledgment never comes is swept,
/// it is retransmitted at most as often as its retries allow, each time a full
/// interval after it was last sent.
pub proof fn lemma_retry_ceiling(e: PendingModel, times: Seq<u64>, interval: u64, max_retries: u32)
    requires
        e.retry_count <= max_retries,
    ensures
        ({
            let r = sweep_entry_at(Some(e), times, interval, max_retries);
            &&& r.1.len() <= max_retries - e.retry_count
            &&& r.0 matches Some(x) ==> x.retry_count == e.retry_count + r.1.len()
                && x.sequence == e.sequence && x.packet == e.packet
                && (r.1.len() > 0 ==> x.last_sent_at == r.1.last())
                && (r.1.len() == 0 ==> x.last_sent_at == e.last_sent_at)
            &&& r.1.len() > 0 ==> r.1[0] as int >= e.last_sent_at + interval
            &&& forall|j: int|
                0 < j < r.1.len() ==> #[trigger] r.1[j] as int >= r.1[j - 1] + interval
        }),
    decreases times.len(),
{
    if times.len() > 0 {
        lemma_retry_ceiling(e, times.drop_last(), interval, max_retries);
        let r0 = sweep_entry_at(Some(e), times.drop_last(), interval, max_retries);
        let r = sweep_entry_at(Some(e), times, interval, max_retries);
        if let Some(x) = r0.0 {
            let t = times.last();
            if sweep_entry(x, t, interval, max_retries).1 {
                assert forall|j: int| 0 < j < r.1.len() implies #[trigger] r.1[j] as int >= r.1[j
                    - 1] + interval by {
                    if j < r.1.len() - 1 {
                        assert(r.1[j] == r0.1[j]);
                        assert(r.1[j - 1] == r0.1[j - 1]);
                    }
                }
            }
        }
    }
}

/// Retry ceiling, exactly: a fresh packet whose acknowledgment never comes, swept once
/// every interval, is retransmitted at the first `max_retries` sweeps, one interval
/// apart, and dropped at the next.
pub proof fn lemma_retry_schedule(e: PendingModel, times: Seq<u64>, interval: u64, max_retries: u32)
    requires
        e.retry_count == 0,
        forall|i: int|
            0 <= i < times.len() ==> #[trigger] times[i] as int == e.last_sent_at + (i + 1)
                * interval,
    ensures
        ({
            let r = sweep_entry_at(Some(e), times, interval, max_retries);
            let k = if times.len() <= max_retries {
                times.len()
            } else {
                max_retries as nat
            };
            &&& r.1 == times.subrange(0, k as int)
            &&& (r.0 is None <==> times.len() > max_retries)
        }),
    decreases times.len(),
{
    if times.len() > 0 {
        let prev = times.drop_last();
        assert forall|i: int| 0 <= i < prev.len() implies #[trigger] prev[i] as int == e.last_sent_at
            + (i + 1) * interval by {
            assert(prev[i] == times[i]);
        }
        lemma_retry_schedule(e, prev, interval, max_retries);
        lemma_retry_ceiling(e, prev, interval, max_retries);
        let r0 = sweep_entry_at(Some(e), prev, interval, max_retries);
        let n = prev.len();
        let t = times.last();
        assert(t as int == e.last_sent_at + (n + 1) * interval);
        if n <= max_retries {
            assert(r0.1 =~= prev.subrange(0, n as int));
            if n > 0 {
                assert(r0.1.last() == times[n - 1]);
                assert(times[n - 1] as int == e.last_sent_at + n * interval);
            }
            assert(e.last_sent_at + (n + 1) * interval == e.last_sent_at + n * interval + interval)
                by (nonlinear_arith);
            if n < max_retries {
                assert(times.subrange(0, n + 1 as int) =~= r0.1.push(t));
            }
        } else {
            assert(r0.0 is None);
            assert(times.subrange(0, max_retries as int) =~= prev.subrange(0, max_retries as int));
        }
    }
}

// ---------------------------------------------------------------------------
// One peer
// ---------------------------------------------------------------------------

/// A reliable packet sent to a peer and not yet acknowledged.
pub struct PendingSend {
    pub sequence: u32,
    /// The packet as it was put on the wire, header included.
    pub packet: Vec<u8>,
    pub last_sent_at: u64,
    pub retry_count: u32,
}

impl View for PendingSend {
    type V = PendingModel;

    open spec fn view(&self) -> PendingModel {
        PendingModel {
            sequence: self.sequence,
            packet: self.packet@,
            last_sent_at: self.last_sent_at,
            retry_count: self.retry_count,
        }
    }
}

/// The pending table as the model sees it.
pub open spec fn pending_view(p: Seq<PendingSend>) -> Seq<PendingModel> {
    p.map_values(|e: PendingSend| e@)
}

/// A reorder buffer slot as the model sees it.
pub open spec fn slot_view(o: Option<Vec<u8>>) -> Option<Seq<u8>> {
    match o {
        Some(v) => Some(v@),
        None => None,
    }
}

/// The reorder buffer as the model sees it.
pub open spec fn buffer_view(b: Map<u32, Option<Vec<u8>>>) -> Map<u32, Option<Seq<u8>>> {
    b.map_values(|o: Option<Vec<u8>>| slot_view(o))
}

/// Payloads as the model sees them.
pub open spec fn payloads_view(v: Seq<Vec<u8>>) -> Seq<Seq<u8>> {
    v.map_values(|p: Vec<u8>| p@)
}

/// Everything the engine keeps about one peer.
pub struct PeerModel {
    pub addr: Seq<char>,
    /// The last sequence allocated for sending (0 before the first).
    pub sequence: u32,
    pub pending: Seq<PendingModel>,
    pub inbound: Inbound,
}

/// A peer the engine has just met.
pub open spec fn fresh_peer(addr: Seq<char>) -> PeerModel {
    PeerModel { addr, sequence: 0, pending: Seq::empty(), inbound: fresh_inbound() }
}

/// The sequence allocated after `s`; it wraps on overflow.
pub open spec fn next_seq(s: u32) -> u32 {
    if s == u32::MAX {
        0
    } else {
        (s + 1) as u32
    }
}

/// The engine's state for one remote peer.
pub struct PeerChannel {
    pub addr: String,
    pub sequence: u32,
    pub pending: Vec<PendingSend>,
    pub next_expected: u64,
    pub buffer: HashMap<u32, Option<Vec<u8>>>,
}

impl View for PeerChannel {
    type V = PeerModel;

    open spec fn view(&self) -> PeerModel {
        PeerModel {
            addr: self.addr@,
            sequence: self.sequence,
            pending: pending_view(self.pending@),
            inbound: Inbound {
                next_expected: self.next_expected as nat,
                buffer: buffer_view(self.buffer@),
            },
        }
    }
}

impl PeerChannel {
    pub open spec fn wf(&self) -> bool {
        inbound_wf(self@.inbound)
    }

    pub fn new(addr: String) -> (r: PeerChannel)
        ensures
            r@ == fresh_peer(addr@),
            r.wf(),
    {
        let r = PeerChannel {
            addr,
            sequence: 0,
            pending: Vec::new(),
            next_expected: 1,
            buffer: HashMap::new(),
        };
        proof {
            assert(pending_view(r.pending@) =~= Seq::empty());
            assert(buffer_view(r.buffer@) =~= Map::empty());
        }
        r
    }

    /// Allocates the next sequence number for sending to this peer.
    pub fn next_sequence(&mut self) -> (r: u32)
        ensures
            r == next_seq(old(self).sequence),
            final(self)@ == (PeerModel { sequence: r, ..old(self)@ }),
            final(self).wf() == old(self).wf(),
    {
        self.sequence = self.sequence.wrapping_add(1);
        self.sequence
    }

    /// Records a packet sent at `now` that waits for its acknowledgment.
    pub fn track(&mut self, sequence: u32, packet: Vec<u8>, now: u64)
        ensures
            final(self)@ == (PeerModel {
                pending: old(self)@.pending.push(
                    PendingModel { sequence, packet: packet@, last_sent_at: now, retry_count: 0 },
                ),
                ..old(self)@
            }),
            final(self).wf() == old(self).wf(),
    {
        let e = PendingSend { sequence, packet, last_sent_at: now, retry_count: 0 };
        self.pending.push(e);
        proof {
            assert(pending_view(self.pending@) =~= pending_view(old(self).pending@).push(e@));
        }
    }

    /// Retires the pending entries of an acknowledged sequence; an unknown sequence
    /// changes nothing.
    pub fn acknowledge(&mut self, sequence: u32)
        ensures
            final(self)@ == (PeerModel {
                pending: acked(old(self)@.pending, sequence),
                ..old(self)@
            }),
            final(self).wf() == old(self).wf(),
    {
        let mut rest: Vec<PendingSend> = Vec::new();
        std::mem::swap(&mut rest, &mut self.pending);
        let mut kept: Vec<PendingSend> = Vec::new();
        while rest.len() > 0
            invariant
                self.addr == old(self).addr,
                self.sequence == old(self).sequence,
                self.next_expected == old(self).next_expected,
                self.buffer == old(self).buffer,
                acked(old(self)@.pending, sequence) == pending_view(kept@) + acked(
                    pending_view(rest@),
                    sequence,
                ),
            decreases rest.len(),
        {
            let ghost before = rest@;
            let e = rest.remove(0);
            proof {
                assert(pending_view(rest@) =~= pending_view(before).drop_first());
            }
            if e.sequence != sequence {
                kept.push(e);
                proof {
                    assert(pending_view(kept@) =~= pending_view(kept@.drop_last()).push(e@));
                }
            }
        }
        proof {
            assert(pending_view(old(self).pending@) == old(self)@.pending);
        }
        self.pending = kept;
    }

    /// Handles the arrival of reliable sequence `sequence`; returns the payloads
    /// released to the application, in order.
    pub fn receive_reliable(&mut self, sequence: u32, payload: Vec<u8>, ordered: bool) -> (r: Vec<
        Vec<u8>,
    >)
        ensures
            ({
                let st = inbound_step(old(self)@.inbound, sequence, payload@, ordered);
                &&& final(self)@ == (PeerModel { inbound: st.0, ..old(self)@ })
                &&& payloads_view(r@) == st.1
            }),
            old(self).wf() ==> final(self).wf(),
    {
        proof {
            if old(self).wf() {
                lemma_inbound_step_wf(old(self)@.inbound, sequence, payload@, ordered);
            }
        }
        let ghost target = inbound_step(old(self)@.inbound, sequence, payload@, ordered);
        let mut out: Vec<Vec<u8>> = Vec::new();
        let duplicate = if (sequence as u64) < self.next_expected {
            true
        } else {
            match self.buffer.get(&sequence) {
                Some(slot) => !ordered || slot.is_none(),
                None => false,
            }
        };
        proof {
            if (sequence as u64) >= self.next_expected {
                if buffer_view(self.buffer@).contains_key(sequence) {
                    assert(self.buffer@.contains_key(sequence));
                    assert(buffer_view(self.buffer@)[sequence] == slot_view(self.buffer@[sequence]));
                }
            }
        }
        if duplicate {
            proof {
                assert(payloads_view(out@) =~= Seq::empty());
            }
            return out;
        }
        let ghost pv = payload@;
        if ordered {
            self.buffer.insert(sequence, Some(payload));
            proof {
                assert(buffer_view(self.buffer@) =~= buffer_view(old(self).buffer@).insert(
                    sequence,
                    Some(pv),
                ));
            }
        } else {
            out.push(payload);
            self.buffer.insert(sequence, None);
            proof {
                assert(buffer_view(self.buffer@) =~= buffer_view(old(self).buffer@).insert(
                    sequence,
                    None,
                ));
                assert(payloads_view(out@) =~= seq![pv]);
            }
        }
        while self.next_expected <= 0xffff_ffffu64 && self.buffer.contains_key(
            &(self.next_expected as u32),
        )
            invariant
                self.addr == old(self).addr,
                self.sequence == old(self).sequence,
                self.pending == old(self).pending,
                self.next_expected <= 0x1_0000_0000u64,
                ({
                    let r = release(self.next_expected as nat, buffer_view(self.buffer@));
                    &&& target.0 == Inbound { next_expected: r.0, buffer: r.1 }
                    &&& target.1 == payloads_view(out@) + r.2
                }),
            decreases 0x1_0000_0000u64 - self.next_expected,
        {
            let ghost b0 = buffer_view(self.buffer@);
            let ghost n0 = self.next_expected as nat;
            let ghost o0 = payloads_view(out@);
            let key = self.next_expected as u32;
            let slot = self.buffer.remove(&key);
            proof {
                assert(b0.contains_key(key));
                assert(buffer_view(self.buffer@) =~= b0.remove(key));
            }
            match slot {
                Some(Some(p)) => {
                    out.push(p);
                    proof {
                        assert(payloads_view(out@) =~= o0.push(p@));
                        let r = release(n0 + 1, b0.remove(key));
                        assert(o0 + (seq![p@] + r.2) =~= o0.push(p@) + r.2);
                    }
                },
                _ => {},
            }
            self.next_expected = self.next_expected + 1;
        }
        proof {
            let r = release(self.next_expected as nat, buffer_view(self.buffer@));
            assert(r.2 =~= Seq::<Seq<u8>>::empty());
            assert(payloads_view(out@) + r.2 =~= payloads_view(out@));
        }
        out
    }

    /// Sweeps the pending table at time `now`: retransmits, in table order, every
    /// packet whose interval has passed and whose retries are not spent, and drops
    /// the ones whose retries are spent. Returns the packets to put on the wire again.
    pub fn retransmit_due(&mut self, now: u64, interval: u64, max_retries: u32) -> (r: Vec<
        Vec<u8>,
    >)
        ensures
            ({
                let sw = sweep(old(self)@.pending, now, interval, max_retries);
                &&& final(self)@ == (PeerModel { pending: sw.0, ..old(self)@ })
                &&& payloads_view(r@) == sw.1
            }),
            final(self).wf() == old(self).wf(),
    {
        let mut rest: Vec<PendingSend> = Vec::new();
        std::mem::swap(&mut rest, &mut self.pending);
        let mut kept: Vec<PendingSend> = Vec::new();
        let mut sent: Vec<Vec<u8>> = Vec::new();
        while rest.len() > 0
            invariant
                self.addr == old(self).addr,
                self.sequence == old(self).sequence,
                self.next_expected == old(self).next_expected,
                self.buffer == old(self).buffer,
                ({
                    let sw = sweep(pending_view(rest@), now, interval, max_retries);
                    let all = sweep(old(self)@.pending, now, interval, max_retries);
                    &&& all.0 == pending_view(kept@) + sw.0
                    &&& all.1 == payloads_view(sent@) + sw.1
                }),
            decreases rest.len(),
        {
            let ghost before = rest@;
            let ghost k0 = pending_view(kept@);
            let ghost s0 = payloads_view(sent@);
            let e = rest.remove(0);
            proof {
                assert(pending_view(rest@) =~= pending_view(before).drop_first());
                assert(pending_view(before)[0] == e@);
            }
            let due = now >= e.last_sent_at && now - e.last_sent_at >= interval;
            if !due {
                kept.push(e);
                proof {
                    assert(pending_view(kept@) =~= k0.push(e@));
                    let sw = sweep(pending_view(rest@), now, interval, max_retries);
                    assert(k0 + (seq![e@] + sw.0) =~= k0.push(e@) + sw.0);
                }
            } else if e.retry_count < max_retries {
                let copy = e.packet.clone();
                let ghost pk = e.packet@;
                let again = PendingSend {
                    sequence: e.sequence,
                    packet: e.packet,
                    last_sent_at: now,
                    retry_count: e.retry_count + 1,
                };
                kept.push(again);
                sent.push(copy);
                proof {
                    assert(pending_view(kept@) =~= k0.push(again@));
                    assert(payloads_view(sent@) =~= s0.push(pk));
                    let sw = sweep(pending_view(rest@), now, interval, max_retries);
                    assert(k0 + (seq![again@] + sw.0) =~= k0.push(again@) + sw.0);
                    assert(s0 + (seq![pk] + sw.1) =~= s0.push(pk) + sw.1);
                }
            }
        }
        proof {
            assert(pending_view(old(self).pending@) == old(self)@.pending);
            assert(pending_view(kept@) + Seq::empty() =~= pending_view(kept@));
            assert(payloads_view(sent@) + Seq::empty() =~= payloads_view(sent@));
        }
        self.pending = kept;
        sent
    }
}

// ---------------------------------------------------------------------------
// All peers
// ---------------------------------------------------------------------------

/// Timing of retransmission.
#[derive(Clone, Copy, Debug)]
pub struct ChannelConfig {
    /// How long a reliable packet waits for its acknowledgment before it is sent again.
    pub retransmit_interval_ms: u64,
    /// How often a reliable packet is sent again before it is given up.
    pub max_retries: u32,
}

impl Default for ChannelConfig {
    fn default() -> (r: ChannelConfig)
        ensures
            r.retransmit_interval_ms == 200,
            r.max_retries == 5,
    {
        ChannelConfig { retransmit_interval_ms: 200, max_retries: 5 }
    }
}

/// The first index from `start` on of a peer of address `addr`, if any.
pub open spec fn find_from(peers: Seq<PeerModel>, addr: Seq<char>, start: int) -> Option<int>
    decreases peers.len() - start,
{
    if start < 0 || start >= peers.len() {
        None
    } else if peers[start].addr == addr {
        Some(start)
    } else {
        find_from(peers, addr, start + 1)
    }
}

/// The index of the peer of address `addr`, if the engine knows it.
pub open spec fn find_peer(peers: Seq<PeerModel>, addr: Seq<char>) -> Option<int> {
    find_from(peers, addr, 0)
}

/// Where the search finds a peer, and that no peer before it has the address.
pub proof fn lemma_find_from(peers: Seq<PeerModel>, addr: Seq<char>, start: int)
    requires
        0 <= start,
    ensures
        match find_from(peers, addr, start) {
            Some(i) => start <= i < peers.len() && peers[i].addr == addr && forall|j: int|
                start <= j < i ==> #[trigger] peers[j].addr != addr,
            None => forall|j: int| start <= j < peers.len() ==> #[trigger] peers[j].addr != addr,
        },
    decreases peers.len() - start,
{
    if start < peers.len() && peers[start].addr != addr {
        lemma_find_from(peers, addr, start + 1);
    }
}

/// A peer added at the end is found when no earlier peer has its address.
pub proof fn lemma_find_push(a: Seq<PeerModel>, x: PeerModel, addr: Seq<char>, start: int)
    requires
        0 <= start <= a.len(),
        find_from(a, addr, start) is None,
        x.addr == addr,
    ensures
        find_from(a.push(x), addr, start) == Some(a.len() as int),
    decreases a.len() - start,
{
    if start < a.len() {
        lemma_find_push(a, x, addr, start + 1);
    }
}

/// The peers, with a fresh one for `addr` added at the end if it was unknown.
pub open spec fn with_peer(peers: Seq<PeerModel>, addr: Seq<char>) -> Seq<PeerModel> {
    if find_peer(peers, addr) is Some {
        peers
    } else {
        peers.push(fresh_peer(addr))
    }
}

/// The index of the peer of address `addr` once it is known.
pub open spec fn peer_at(peers: Seq<PeerModel>, addr: Seq<char>) -> int {
    find_peer(with_peer(peers, addr), addr)->Some_0
}

/// The encoding of a reliable packet.
pub open spec fn reliable_packet(payload: Seq<u8>, sequence: u32, ordered: bool) -> Seq<u8> {
    if ordered {
        Packet::Reliable(payload, sequence).encode()
    } else {
        Packet::ReliableUnordered(payload, sequence).encode()
    }
}

/// Retransmissions of a sweep of all peers, peer by peer: each packet with the
/// address it goes to.
pub open spec fn sweep_all(peers: Seq<PeerModel>, now: u64, interval: u64, max_retries: u32) -> Seq<
    (Seq<char>, Seq<u8>),
>
    decreases peers.len(),
{
    if peers.len() == 0 {
        Seq::empty()
    } else {
        let a = peers[0].addr;
        sweep(peers[0].pending, now, interval, max_retries).1.map_values(
            |p: Seq<u8>| (a, p),
        ) + sweep_all(peers.drop_first(), now, interval, max_retries)
    }
}

/// The payloads of `s` that are not empty, in order.
pub open spec fn non_empty(s: Seq<Seq<u8>>) -> Seq<Seq<u8>>
    decreases s.len(),
{
    if s.len() == 0 {
        s
    } else {
        let r = non_empty(s.drop_last());
        if s.last().len() > 0 {
            r.push(s.last())
        } else {
            r
        }
    }
}

/// What the engine makes of the bytes `bytes` that arrive from `addr`: the peers
/// afterwards, the payloads released to the application, and the acknowledgment to
/// send back. An empty payload is released as nothing, since above the engine an
/// empty message means a closed connection (a reliable one is still acknowledged and
/// still takes its place in the sequence).
pub open spec fn receive_step(peers: Seq<PeerModel>, addr: Seq<char>, bytes: Seq<u8>) -> (
    Seq<PeerModel>,
    Seq<Seq<u8>>,
    Option<Seq<u8>>,
) {
    let r = packet_step(peers, addr, bytes);
    (r.0, non_empty(r.1), r.2)
}

/// The engine's handling of the bytes `bytes` from `addr`, before empty payloads are
/// dropped. A reliable packet is acknowledged (a duplicate too) and goes through the
/// reorder logic; an unreliable one is released as it is; an acknowledgment retires
/// pending entries; bytes that are no packet are dropped.
pub open spec fn packet_step(peers: Seq<PeerModel>, addr: Seq<char>, bytes: Seq<u8>) -> (
    Seq<PeerModel>,
    Seq<Seq<u8>>,
    Option<Seq<u8>>,
) {
    match spec_decode(bytes) {
        None => (peers, Seq::empty(), None),
        Some(Packet::Unreliable(p)) => (peers, seq![p], None),
        Some(Packet::Reliable(p, s)) => {
            let ps = with_peer(peers, addr);
            let i = peer_at(peers, addr);
            let st = inbound_step(ps[i].inbound, s, p, true);
            (ps.update(i, PeerModel { inbound: st.0, ..ps[i] }), st.1, Some(Packet::Ack(s).encode()))
        },
        Some(Packet::ReliableUnordered(p, s)) => {
            let ps = with_peer(peers, addr);
            let i = peer_at(peers, addr);
            let st = inbound_step(ps[i].inbound, s, p, false);
            (ps.update(i, PeerModel { inbound: st.0, ..ps[i] }), st.1, Some(Packet::Ack(s).encode()))
        },
        Some(Packet::Ack(s)) => {
            let after = match find_peer(peers, addr) {
                Some(i) => peers.update(
                    i,
                    PeerModel { pending: acked(peers[i].pending, s), ..peers[i] },
                ),
                None => peers,
            };
            (after, Seq::empty(), None)
        },
    }
}

/// An optional message as the model sees it.
pub open spec fn reply_view(r: Option<Vec<u8>>) -> Option<Seq<u8>> {
    match r {
        Some(v) => Some(v@),
        None => None,
    }
}

/// What the engine makes of a packet that arrives: the payloads released to the
/// application, and the acknowledgment to send back, if any.
pub struct Received {
    pub released: Vec<Vec<u8>>,
    pub reply: Option<Vec<u8>>,
}

/// The reliable delivery engine: per-peer sequencing, reordering, acknowledgment
/// and bounded retransmission over a medium that only offers best-effort datagrams.
pub struct ReliableChannel {
    pub config: ChannelConfig,
    pub peers: Vec<PeerChannel>,
}

impl View for ReliableChannel {
    type V = Seq<PeerModel>;

    open spec fn view(&self) -> Seq<PeerModel> {
        self.peers@.map_values(|p: PeerChannel| p@)
    }
}

/// Replacing one peer replaces its model.
proof fn lemma_view_update(peers: Seq<PeerChannel>, i: int, p: PeerChannel)
    requires
        0 <= i < peers.len(),
    ensures
        peers.update(i, p).map_values(|q: PeerChannel| q@) == peers.map_values(
            |q: PeerChannel| q@,
        ).update(i, p@),
{
    assert(peers.update(i, p).map_values(|q: PeerChannel| q@) =~= peers.map_values(
        |q: PeerChannel| q@,
    ).update(i, p@));
}

impl ReliableChannel {
    /// Each peer's receive state is well formed.
    pub open spec fn wf(&self) -> bool {
        forall|i: int| 0 <= i < self.peers@.len() ==> (#[trigger] self.peers@[i]).wf()
    }

    pub fn new(config: ChannelConfig) -> (r: ReliableChannel)
        ensures
            r.wf(),
            r.config == config,
            r@ == Seq::<PeerModel>::empty(),
    {
        let r = ReliableChannel { config, peers: Vec::new() };
        proof {
            assert(r@ =~= Seq::<PeerModel>::empty());
        }
        r
    }

    /// The index of the peer of address `addr`, if the engine knows it.
    pub fn position(&self, addr: &str) -> (r: Option<usize>)
        ensures
            match r {
                Some(i) => find_peer(self@, addr@) == Some(i as int) && i < self@.len()
                    && self@[i as int].addr == addr@,
                None => find_peer(self@, addr@) is None,
            },
    {
        let key = addr.to_owned();
        let mut i: usize = 0;
        while i < self.peers.len()
            invariant
                i <= self.peers@.len(),
                key@ == addr@,
                find_peer(self@, addr@) == find_from(self@, addr@, i as int),
            decreases self.peers@.len() - i,
        {
            proof {
                assert(self@[i as int] == self.peers@[i as int]@);
            }
            if self.peers[i].addr == key {
                return Some(i);
            }
            i = i + 1;
        }
        None
    }

    /// The index of the peer of address `addr`, which is added fresh if unknown.
    fn peer_index(&mut self, addr: &str) -> (r: usize)
        ensures
            old(self).wf() ==> final(self).wf(),
            final(self).config == old(self).config,
            final(self)@ == with_peer(old(self)@, addr@),
            r == peer_at(old(self)@, addr@),
            r < final(self)@.len(),
    {
        match self.position(addr) {
            Some(i) => {
                proof {
                    lemma_find_from(self@, addr@, 0);
                }
                i
            },
            None => {
                let p = PeerChannel::new(addr.to_owned());
                let n = self.peers.len();
                self.peers.push(p);
                proof {
                    assert(self@ =~= old(self)@.push(fresh_peer(addr@)));
                    lemma_find_push(old(self)@, fresh_peer(addr@), addr@, 0);
                    if old(self).wf() {
                        assert forall|i: int| 0 <= i < self.peers@.len() implies (
                        #[trigger] self.peers@[i]).wf() by {
                            if i < n {
                                assert(self.peers@[i] == old(self).peers@[i]);
                            }
                        }
                    }
                }
                n
            },
        }
    }

    /// Takes peer `i` out, to put it back with `put_back`.
    fn take_peer(&mut self, i: usize) -> (r: PeerChannel)
        requires
            i < old(self).peers@.len(),
        ensures
            r == old(self).peers@[i as int],
            final(self).peers@ == old(self).peers@.remove(i as int),
            final(self).config == old(self).config,
    {
        self.peers.remove(i)
    }

    /// Puts back at index `i` a peer taken out there, with the same address.
    fn put_back(&mut self, i: usize, p: PeerChannel)
        requires
            i <= old(self).peers@.len(),
        ensures
            final(self).peers@ == old(self).peers@.insert(i as int, p),
            final(self).config == old(self).config,
    {
        self.peers.insert(i, p);
    }

    /// Allocates the next sequence number for sending to `addr`.
    pub fn next_sequence(&mut self, addr: &str) -> (r: u32)
        ensures
            old(self).wf() ==> final(self).wf(),
            final(self).config == old(self).config,
            ({
                let ps = with_peer(old(self)@, addr@);
                let i = peer_at(old(self)@, addr@);
                &&& r == next_seq(ps[i].sequence)
                &&& final(self)@ == ps.update(i, PeerModel { sequence: r, ..ps[i] })
            }),
    {
        let i = self.peer_index(addr);
        let ghost mid = *self;
        let mut p = self.take_peer(i);
        let r = p.next_sequence();
        self.put_back(i, p);
        proof {
            assert(self.peers@ =~= mid.peers@.update(i as int, p));
            lemma_view_update(mid.peers@, i as int, p);
            self.lemma_wf_after_update(mid, i as int);
        }
        r
    }

    /// Well-formedness survives replacing one peer by a well-formed one with the
    /// same address.
    proof fn lemma_wf_after_update(&self, before: ReliableChannel, i: int)
        requires
            before.wf() ==> self.peers@[i].wf(),
            0 <= i < before.peers@.len(),
            self.peers@ == before.peers@.update(i, self.peers@[i]),
        ensures
            before.wf() ==> self.wf(),
    {
        if before.wf() {
            assert forall|j: int| 0 <= j < self.peers@.len() implies (#[trigger] self.peers@[j]).wf() by {
                if j != i {
                    assert(self.peers@[j] == before.peers@[j]);
                }
            }
        }
    }

    /// Sends `payload` reliably to `addr` at time `now`: allocates its sequence,
    /// records it as pending, and returns the packet to put on the wire.
    pub fn send_reliable(&mut self, addr: &str, payload: &[u8], ordered: bool, now: u64) -> (r:
        Vec<u8>)
        ensures
            old(self).wf() ==> final(self).wf(),
            final(self).config == old(self).config,
            ({
                let ps = with_peer(old(self)@, addr@);
                let i = peer_at(old(self)@, addr@);
                let s = next_seq(ps[i].sequence);
                &&& r@ == reliable_packet(payload@, s, ordered)
                &&& final(self)@ == ps.update(
                    i,
                    PeerModel {
                        sequence: s,
                        pending: ps[i].pending.push(
                            PendingModel {
                                sequence: s,
                                packet: r@,
                                last_sent_at: now,
                                retry_count: 0,
                            },
                        ),
                        ..ps[i]
                    },
                )
            }),
    {
        let i = self.peer_index(addr);
        let ghost mid = *self;
        let mut p = self.take_peer(i);
        let s = p.next_sequence();
        let body = copy_slice(payload);
        let m = if ordered {
            MessageType::Reliable(body, s)
        } else {
            MessageType::ReliableUnordered(body, s)
        };
        let packet = m.encode();
        p.track(s, packet.clone(), now);
        self.put_back(i, p);
        proof {
            assert(self.peers@ =~= mid.peers@.update(i as int, p));
            lemma_view_update(mid.peers@, i as int, p);
            self.lemma_wf_after_update(mid, i as int);
        }
        packet
    }

    /// Retires the pending entries of sequence `sequence` sent to `addr`. An
    /// acknowledgment for an unknown peer or sequence changes nothing.
    pub fn acknowledge(&mut self, addr: &str, sequence: u32)
        ensures
            old(self).wf() ==> final(self).wf(),
            final(self).config == old(self).config,
            final(self)@ == match find_peer(old(self)@, addr@) {
                Some(i) => old(self)@.update(
                    i,
                    PeerModel { pending: acked(old(self)@[i].pending, sequence), ..old(self)@[i] },
                ),
                None => old(self)@,
            },
    {
        match self.position(addr) {
            Some(i) => {
                let ghost mid = *self;
                let mut p = self.take_peer(i);
                p.acknowledge(sequence);
                self.put_back(i, p);
                proof {
                    assert(self.peers@ =~= mid.peers@.update(i as int, p));
                    lemma_view_update(mid.peers@, i as int, p);
                    self.lemma_wf_after_update(mid, i as int);
                }
            },
            None => {},
        }
    }

    /// Handles reliable sequence `sequence` from `addr`; returns the payloads
    /// released to the application, in order.
    pub fn handle_reliable_message(
        &mut self,
        addr: &str,
        sequence: u32,
        payload: Vec<u8>,
        ordered: bool,
    ) -> (r: Vec<Vec<u8>>)
        ensures
            old(self).wf() ==> final(self).wf(),
            final(self).config == old(self).config,
            ({
                let ps = with_peer(old(self)@, addr@);
                let i = peer_at(old(self)@, addr@);
                let st = inbound_step(ps[i].inbound, sequence, payload@, ordered);
                &&& final(self)@ == ps.update(i, PeerModel { inbound: st.0, ..ps[i] })
                &&& payloads_view(r@) == st.1
            }),
    {
        let i = self.peer_index(addr);
        let ghost mid = *self;
        let mut p = self.take_peer(i);
        let r = p.receive_reliable(sequence, payload, ordered);
        self.put_back(i, p);
        proof {
            assert(self.peers@ =~= mid.peers@.update(i as int, p));
            lemma_view_update(mid.peers@, i as int, p);
            self.lemma_wf_after_update(mid, i as int);
        }
        r
    }

    /// Handles the bytes that arrived from `addr` (see `receive_step`).
    pub fn receive(&mut self, addr: &str, bytes: &[u8]) -> (r: Received)
        ensures
            old(self).wf() ==> final(self).wf(),
            final(self).config == old(self).config,
            ({
                let st = receive_step(old(self)@, addr@, bytes@);
                &&& final(self)@ == st.0
                &&& payloads_view(r.released@) == st.1
                &&& reply_view(r.reply) == st.2
            }),
    {
        let got = self.receive_packet(addr, bytes);
        let released = drop_empty(&got.released);
        Received { released, reply: got.reply }
    }

    /// Handles the bytes that arrived from `addr` (see `packet_step`).
    fn receive_packet(&mut self, addr: &str, bytes: &[u8]) -> (r: Received)
        ensures
            old(self).wf() ==> final(self).wf(),
            final(self).config == old(self).config,
            ({
                let st = packet_step(old(self)@, addr@, bytes@);
                &&& final(self)@ == st.0
                &&& payloads_view(r.released@) == st.1
                &&& reply_view(r.reply) == st.2
            }),
    {
        match MessageType::decode(bytes) {
            None => {
                let released: Vec<Vec<u8>> = Vec::new();
                proof {
                    assert(payloads_view(released@) =~= Seq::empty());
                }
                Received { released, reply: None }
            },
            Some(MessageType::Unreliable(p)) => {
                let mut released: Vec<Vec<u8>> = Vec::new();
                let ghost pv = p@;
                released.push(p);
                proof {
                    assert(payloads_view(released@) =~= seq![pv]);
                }
                Received { released, reply: None }
            },
            Some(MessageType::Reliable(p, s)) => {
                let released = self.handle_reliable_message(addr, s, p, true);
                let ack = MessageType::Ack(s).encode();
                Received { released, reply: Some(ack) }
            },
            Some(MessageType::ReliableUnordered(p, s)) => {
                let released = self.handle_reliable_message(addr, s, p, false);
                let ack = MessageType::Ack(s).encode();
                Received { released, reply: Some(ack) }
            },
            Some(MessageType::Ack(s)) => {
                self.acknowledge(addr, s);
                let released: Vec<Vec<u8>> = Vec::new();
                proof {
                    assert(payloads_view(released@) =~= Seq::empty());
                }
                Received { released, reply: None }
            },
        }
    }

    /// Sweeps every peer's pending table at time `now` (see
    /// `PeerChannel::retransmit_due`); returns the packets to send again with their
    /// addresses, peer by peer.
    pub fn retransmit_due(&mut self, now: u64) -> (r: Vec<(String, Vec<u8>)>)
        ensures
            old(self).wf() ==> final(self).wf(),
            final(self).config == old(self).config,
            final(self)@.len() == old(self)@.len(),
            forall|i: int|
                0 <= i < old(self)@.len() ==> #[trigger] final(self)@[i] == (PeerModel {
                    pending: sweep(
                        old(self)@[i].pending,
                        now,
                        old(self).config.retransmit_interval_ms,
                        old(self).config.max_retries,
                    ).0,
                    ..old(self)@[i]
                }),
            r@.map_values(|x: (String, Vec<u8>)| (x.0@, x.1@)) == sweep_all(
                old(self)@,
                now,
                old(self).config.retransmit_interval_ms,
                old(self).config.max_retries,
            ),
    {
        let interval = self.config.retransmit_interval_ms;
        let max_retries = self.config.max_retries;
        let ghost start = self@;
        let mut out: Vec<(String, Vec<u8>)> = Vec::new();
        let mut i: usize = 0;
        proof {
            assert(start.subrange(0, start.len() as int) =~= start);
            assert(out@.map_values(|x: (String, Vec<u8>)| (x.0@, x.1@)) =~= Seq::empty());
        }
        while i < self.peers.len()
            invariant
                old(self).wf() ==> self.wf(),
                self.config == old(self).config,
                interval == self.config.retransmit_interval_ms,
                max_retries == self.config.max_retries,
                i <= self@.len(),
                self@.len() == start.len(),
                start == old(self)@,
                forall|j: int|
                    0 <= j < i ==> #[trigger] self@[j] == (PeerModel {
                        pending: sweep(start[j].pending, now, interval, max_retries).0,
                        ..start[j]
                    }),
                forall|j: int| i <= j < self@.len() ==> #[trigger] self@[j] == start[j],
                sweep_all(start, now, interval, max_retries) == out@.map_values(
                    |x: (String, Vec<u8>)| (x.0@, x.1@),
                ) + sweep_all(start.subrange(i as int, start.len() as int), now, interval, max_retries),
            decreases self@.len() - i,
        {
            let ghost mid = *self;
            let ghost o0 = out@.map_values(|x: (String, Vec<u8>)| (x.0@, x.1@));
            proof {
                assert(mid@[i as int] == mid.peers@[i as int]@);
            }
            let mut p = self.take_peer(i);
            let sent = p.retransmit_due(now, interval, max_retries);
            let ghost a = p.addr@;
            let mut k: usize = 0;
            proof {
                assert(sent@.subrange(0, 0) =~= Seq::<Vec<u8>>::empty());
                assert(payloads_view(sent@.subrange(0, 0)).map_values(|q: Seq<u8>| (a, q)) =~= Seq::empty());
                assert(o0 + Seq::<(Seq<char>, Seq<u8>)>::empty() =~= o0);
            }
            while k < sent.len()
                invariant
                    k <= sent@.len(),
                    p.addr@ == a,
                    out@.map_values(|x: (String, Vec<u8>)| (x.0@, x.1@)) == o0 + payloads_view(
                        sent@.subrange(0, k as int),
                    ).map_values(|q: Seq<u8>| (a, q)),
                decreases sent@.len() - k,
            {
                let ghost before = out@;
                let item = (p.addr.clone(), clone_bytes(&sent[k]));
                out.push(item);
                k = k + 1;
                proof {
                    let f = |x: (String, Vec<u8>)| (x.0@, x.1@);
                    let g = |q: Seq<u8>| (a, q);
                    assert(out@ == before.push(item));
                    assert(out@.map_values(f) =~= before.map_values(f).push((a, sent@[k - 1]@)));
                    assert(sent@.subrange(0, k as int) =~= sent@.subrange(0, k - 1 as int).push(
                        sent@[k - 1],
                    ));
                    assert(payloads_view(sent@.subrange(0, k as int)) =~= payloads_view(
                        sent@.subrange(0, k - 1 as int),
                    ).push(sent@[k - 1]@));
                    assert(payloads_view(sent@.subrange(0, k as int)).map_values(g) =~= payloads_view(
                        sent@.subrange(0, k - 1 as int),
                    ).map_values(g).push((a, sent@[k - 1]@)));
                    assert(out@.map_values(f) =~= o0 + payloads_view(
                        sent@.subrange(0, k as int),
                    ).map_values(g));
                }
            }
            self.put_back(i, p);
            proof {
                assert(self.peers@ =~= mid.peers@.update(i as int, p));
                lemma_view_update(mid.peers@, i as int, p);
                self.lemma_wf_after_update(mid, i as int);
                assert(self@ == mid@.update(i as int, p@));
                let rest = start.subrange(i as int, start.len() as int);
                assert(rest[0] == start[i as int]);
                assert(rest.drop_first() =~= start.subrange(i + 1, start.len() as int));
                assert(sent@.subrange(0, sent@.len() as int) =~= sent@);
                let outv = out@.map_values(|x: (String, Vec<u8>)| (x.0@, x.1@));
                assert(outv + sweep_all(start.subrange(i + 1, start.len() as int), now, interval, max_retries)
                    =~= o0 + sweep_all(rest, now, interval, max_retries));
            }
            i = i + 1;
        }
        proof {
            assert(start.subrange(i as int, start.len() as int) =~= Seq::<PeerModel>::empty());
            let outv = out@.map_values(|x: (String, Vec<u8>)| (x.0@, x.1@));
            assert(outv + Seq::empty() =~= outv);
        }
        out
    }

    /// Drops everything the engine keeps about `addr`: its pending packets are never
    /// sent again and its reorder buffer is released.
    pub fn forget(&mut self, addr: &str)
        ensures
            old(self).wf() ==> final(self).wf(),
            final(self).config == old(self).config,
            final(self)@ == match find_peer(old(self)@, addr@) {
                Some(i) => old(self)@.remove(i),
                None => old(self)@,
            },
    {
        match self.position(addr) {
            Some(i) => {
                let _ = self.take_peer(i);
                proof {
                    assert(self@ =~= old(self)@.remove(i as int));
                    if old(self).wf() {
                        assert forall|j: int| 0 <= j < self.peers@.len() implies (
                        #[trigger] self.peers@[j]).wf() by {
                            if j < i {
                                assert(self.peers@[j] == old(self).peers@[j]);
                            } else {
                                assert(self.peers@[j] == old(self).peers@[j + 1]);
                            }
                        }
                    }
                }
            },
            None => {},
        }
    }
}

/// The payloads of `v` that are not empty, in order.
fn drop_empty(v: &Vec<Vec<u8>>) -> (r: Vec<Vec<u8>>)
    ensures
        payloads_view(r@) == non_empty(payloads_view(v@)),
{
    let mut out: Vec<Vec<u8>> = Vec::new();
    let mut i: usize = 0;
    proof {
        assert(payloads_view(v@.subrange(0, 0)) =~= Seq::<Seq<u8>>::empty());
        assert(payloads_view(out@) =~= Seq::<Seq<u8>>::empty());
    }
    while i < v.len()
        invariant
            i <= v@.len(),
            payloads_view(out@) == non_empty(payloads_view(v@.subrange(0, i as int))),
        decreases v@.len() - i,
    {
        let ghost o0 = payloads_view(out@);
        let ghost pre = payloads_view(v@.subrange(0, i as int));
        if v[i].len() > 0 {
            out.push(clone_bytes(&v[i]));
            proof {
                assert(payloads_view(out@) =~= o0.push(v@[i as int]@));
            }
        }
        i = i + 1;
        proof {
            let now = payloads_view(v@.subrange(0, i as int));
            assert(now.drop_last() =~= pre);
            assert(now.last() == v@[i - 1]@);
        }
    }
    proof {
        assert(v@.subrange(0, v@.len() as int) =~= v@);
    }
    out
}

/// A copy of `v`.
fn clone_bytes(v: &Vec<u8>) -> (r: Vec<u8>)
    ensures
        r@ == v@,
{
    let r = v.clone();
    proof {
        assert(r@ =~= v@);
    }
    r
}

/// A copy of `b`.
fn copy_slice(b: &[u8]) -> (r: Vec<u8>)
    ensures
        r@ == b@,
{
    let mut out: Vec<u8> = Vec::new();
    crate::buf::append_all(&mut out, b);
    proof {
        assert(out@ =~= b@);
    }
    out
}

} // verus!
