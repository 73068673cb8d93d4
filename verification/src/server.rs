//! The decision logic of the TCP transport: connection ids, cutting the
//! byte stream of a connection into frames, and turning execution reports
//! into outbound frames.
//!
//! Sockets and threads stay with the application: a reader thread hands
//! the bytes it receives to a [`FrameReader`], a dispatcher thread hands
//! each report to [`dispatch`] and writes what comes back.

use vstd::prelude::*;
use vstd::slice::slice_subrange;
use vstd::slice::slice_to_vec;

use crate::engine::OutboundExec;
use crate::error::Error;
use crate::protocol::{
    encode_exec_report, exec_report_frame, lemma_parse_prefix, parse, parse_spec, InboundMessage,
    EXEC_REPORT_SIZE, HEADER_SIZE,
};
use crate::ConnId;

verus! {

/// Capacity of a connection's read buffer. A frame that does not fit is
/// dropped.
pub const READ_BUF_CAP: usize = 65536;

/// What reading the complete frames at the front of `bytes` gives: the
/// messages in order, how many bytes they take, and whether a malformed
/// frame follows them (which ends the connection). Reading stops at the
/// first frame that is not complete yet.
pub open spec fn drain_spec(bytes: Seq<u8>) -> (Seq<InboundMessage>, int, bool)
    decreases bytes.len(),
{
    if bytes.len() < HEADER_SIZE {
        (Seq::empty(), 0, false)
    } else {
        match parse_spec(bytes) {
            Ok((msg, used)) => if 0 < used <= bytes.len() {
                let rest = drain_spec(bytes.subrange(used as int, bytes.len() as int));
                (seq![msg] + rest.0, used + rest.1, rest.2)
            } else {
                (Seq::empty(), 0, true)
            },
            Err(Error::ShortBuffer { .. }) => (Seq::empty(), 0, false),
            Err(_) => (Seq::empty(), 0, true),
        }
    }
}

/// A parsed frame uses at least a header and no more than the buffer.
proof fn lemma_parse_used(bytes: Seq<u8>)
    ensures
        parse_spec(bytes) matches Ok((_, used)) ==> HEADER_SIZE <= used <= bytes.len(),
{
}

/// The frames read never run past the bytes they are read from.
proof fn lemma_drain_bounds(bytes: Seq<u8>)
    ensures
        0 <= drain_spec(bytes).1 <= bytes.len(),
    decreases bytes.len(),
{
    if bytes.len() >= HEADER_SIZE {
        lemma_parse_used(bytes);
        if let Ok((_, used)) = parse_spec(bytes) {
            lemma_drain_bounds(bytes.subrange(used as int, bytes.len() as int));
        }
    }
}

/// Reading a stream in two parts gives what reading it whole gives: the
/// frames complete in the first part, then whatever the bytes left over
/// and the second part hold together. After a malformed frame, nothing
/// that follows is read.
pub proof fn lemma_drain_prefix(s: Seq<u8>, t: Seq<u8>)
    ensures
        ({
            let d = drain_spec(s);
            let rest = drain_spec(s.subrange(d.1, s.len() as int) + t);
            if d.2 {
                drain_spec(s + t) == d
            } else {
                drain_spec(s + t) == (d.0 + rest.0, d.1 + rest.1, rest.2)
            }
        }),
    decreases s.len(),
{
    lemma_drain_bounds(s);
    lemma_parse_used(s);
    lemma_parse_prefix(s, t);
    let d = drain_spec(s);
    if s.len() < HEADER_SIZE {
        assert(s.subrange(0, s.len() as int) =~= s);
        assert(Seq::<InboundMessage>::empty() + drain_spec(s + t).0 =~= drain_spec(s + t).0);
    } else {
        match parse_spec(s) {
            Ok((msg, used)) => {
                let tail = s.subrange(used as int, s.len() as int);
                lemma_drain_prefix(tail, t);
                lemma_drain_bounds(tail);
                lemma_parse_used(s + t);
                assert((s + t).subrange(used as int, (s + t).len() as int) =~= tail + t);
                let dt = drain_spec(tail);
                assert(tail.subrange(dt.1, tail.len() as int) =~= s.subrange(used + dt.1, s.len() as int));
                let rest = drain_spec(tail.subrange(dt.1, tail.len() as int) + t);
                assert(seq![msg] + (dt.0 + rest.0) =~= (seq![msg] + dt.0) + rest.0);
            },
            Err(e) => {
                if e is ShortBuffer {
                    assert(s.subrange(0, s.len() as int) =~= s);
                    assert(Seq::<InboundMessage>::empty() + drain_spec(s + t).0 =~= drain_spec(
                        s + t,
                    ).0);
                }
            },
        }
    }
}

/// The encoder's new-order frame is read back first, whatever follows it.
pub proof fn lemma_drain_new_order_frame(
    seq: u64,
    ts: u64,
    body: crate::protocol::NewOrderBody,
    rest: Seq<u8>,
)
    ensures
        ({
            let d = drain_spec(rest);
            drain_spec(crate::protocol::new_order_frame(seq, ts, body) + rest) == (
                seq![
                    InboundMessage::NewOrder {
                        header: crate::protocol::frame_header(
                            seq,
                            ts,
                            crate::protocol::MsgType::NewOrder,
                            crate::protocol::NEW_ORDER_SIZE as u32,
                        ),
                        body,
                    },
                ] + d.0,
                crate::protocol::HEADER_SIZE + crate::protocol::NEW_ORDER_SIZE + d.1,
                d.2,
            )
        }),
{
    let f = crate::protocol::new_order_frame(seq, ts, body);
    crate::protocol::lemma_parse_new_order_frame(seq, ts, body, rest);
    crate::protocol::lemma_new_order_round_trip(body);
    crate::protocol::lemma_header_round_trip(
        crate::protocol::frame_header(seq, ts, crate::protocol::MsgType::NewOrder, crate::protocol::NEW_ORDER_SIZE as u32),
    );
    let s = f + rest;
    assert(s.subrange((HEADER_SIZE + crate::protocol::NEW_ORDER_SIZE) as int, s.len() as int) =~= rest);
}

/// The encoder's cancel frame is read back first, whatever follows it.
pub proof fn lemma_drain_cancel_frame(
    seq: u64,
    ts: u64,
    body: crate::protocol::CancelOrderBody,
    rest: Seq<u8>,
)
    ensures
        ({
            let d = drain_spec(rest);
            drain_spec(crate::protocol::cancel_frame(seq, ts, body) + rest) == (
                seq![
                    InboundMessage::Cancel {
                        header: crate::protocol::frame_header(
                            seq,
                            ts,
                            crate::protocol::MsgType::CancelOrder,
                            crate::protocol::CANCEL_ORDER_SIZE as u32,
                        ),
                        body,
                    },
                ] + d.0,
                crate::protocol::HEADER_SIZE + crate::protocol::CANCEL_ORDER_SIZE + d.1,
                d.2,
            )
        }),
{
    let f = crate::protocol::cancel_frame(seq, ts, body);
    crate::protocol::lemma_parse_cancel_frame(seq, ts, body, rest);
    crate::protocol::lemma_cancel_round_trip(body);
    crate::protocol::lemma_header_round_trip(
        crate::protocol::frame_header(seq, ts, crate::protocol::MsgType::CancelOrder, crate::protocol::CANCEL_ORDER_SIZE as u32),
    );
    let s = f + rest;
    assert(s.subrange((HEADER_SIZE + crate::protocol::CANCEL_ORDER_SIZE) as int, s.len() as int) =~= rest);
}

/// Parse the complete frames at the front of `buf`. Returns the messages,
/// the number of bytes they use, and whether a malformed frame follows.
pub fn drain_frames(buf: &[u8]) -> (r: (Vec<InboundMessage>, usize, bool))
    ensures
        r.0@ == drain_spec(buf@).0,
        r.1 == drain_spec(buf@).1,
        r.2 == drain_spec(buf@).2,
{
    let mut msgs: Vec<InboundMessage> = Vec::new();
    let mut consumed: usize = 0;
    proof {
        assert(buf@.subrange(0, buf@.len() as int) =~= buf@);
    }
    while buf.len() - consumed >= HEADER_SIZE
        invariant
            consumed <= buf@.len(),
            ({
                let rest = drain_spec(buf@.subrange(consumed as int, buf@.len() as int));
                drain_spec(buf@) == (msgs@ + rest.0, consumed + rest.1, rest.2)
            }),
        decreases buf@.len() - consumed,
    {
        let rest = slice_subrange(buf, consumed, buf.len());
        let ghost tail = rest@;
        proof {
            lemma_parse_used(tail);
        }
        match parse(rest) {
            Ok((msg, used)) => {
                proof {
                    assert(tail.subrange(used as int, tail.len() as int) =~= buf@.subrange(
                        consumed + used,
                        buf@.len() as int,
                    ));
                    assert(msgs@.push(msg) + drain_spec(buf@.subrange(consumed + used, buf@.len() as int)).0
                        =~= msgs@ + (seq![msg] + drain_spec(
                        buf@.subrange(consumed + used, buf@.len() as int),
                    ).0));
                }
                msgs.push(msg);
                consumed = consumed + used;
            },
            Err(Error::ShortBuffer { .. }) => {
                proof {
                    assert(msgs@ + Seq::<InboundMessage>::empty() =~= msgs@);
                }
                return (msgs, consumed, false);
            },
            Err(_) => {
                proof {
                    assert(msgs@ + Seq::<InboundMessage>::empty() =~= msgs@);
                }
                return (msgs, consumed, true);
            },
        }
    }
    proof {
        assert(msgs@ + Seq::<InboundMessage>::empty() =~= msgs@);
    }
    (msgs, consumed, false)
}

/// The read side of a connection: the bytes received and not yet parsed.
pub struct FrameReader {
    buf: Vec<u8>,
}

impl FrameReader {
    /// The bytes received and not yet parsed.
    pub closed spec fn pending(&self) -> Seq<u8> {
        self.buf@
    }

    pub fn new() -> (r: Self)
        ensures
            r.pending() == Seq::<u8>::empty(),
    {
        FrameReader { buf: Vec::new() }
    }

    /// How many bytes the next read may hand over: what the buffer has
    /// left.
    pub fn free_space(&self) -> (n: usize)
        ensures
            n == (if self.pending().len() <= READ_BUF_CAP {
                READ_BUF_CAP - self.pending().len()
            } else {
                0
            }),
    {
        if self.buf.len() <= READ_BUF_CAP {
            READ_BUF_CAP - self.buf.len()
        } else {
            0
        }
    }

    /// Before a read: when the buffer is full without holding a complete
    /// frame, drop its contents. Returns whether it did.
    pub fn make_room(&mut self) -> (dropped: bool)
        ensures
            dropped == (old(self).pending().len() == READ_BUF_CAP),
            final(self).pending() == (if dropped {
                Seq::<u8>::empty()
            } else {
                old(self).pending()
            }),
    {
        if self.buf.len() == READ_BUF_CAP {
            self.buf = Vec::new();
            true
        } else {
            false
        }
    }

    /// Take the bytes of one read: parse every complete frame now pending
    /// and keep the rest. Returns the messages, in order, and whether a
    /// malformed frame follows them, after which the connection is closed.
    pub fn feed(&mut self, data: &[u8]) -> (r: (Vec<InboundMessage>, bool))
        ensures
            ({
                let all = old(self).pending() + data@;
                let d = drain_spec(all);
                &&& r.0@ == d.0
                &&& r.1 == d.2
                &&& final(self).pending() == all.subrange(d.1, all.len() as int)
                &&& final(self).pending().len() <= all.len()
            }),
    {
        let ghost all = old(self).pending() + data@;
        self.buf.extend_from_slice(data);
        proof {
            assert(self.buf@ =~= all);
            lemma_drain_bounds(all);
        }
        let (msgs, consumed, fatal) = drain_frames(self.buf.as_slice());
        let rest = slice_to_vec(slice_subrange(self.buf.as_slice(), consumed, self.buf.len()));
        self.buf = rest;
        (msgs, fatal)
    }
}

/// What successive calls of `FrameReader::feed` give, one per chunk of
/// `chunks`, starting from the pending bytes `pending`: the messages in
/// order, and whether a malformed frame was met (after which the
/// connection is closed and nothing more is read).
pub open spec fn feed_chunks(pending: Seq<u8>, chunks: Seq<Seq<u8>>) -> (Seq<InboundMessage>, bool)
    decreases chunks.len(),
{
    if chunks.len() == 0 {
        (Seq::empty(), false)
    } else {
        let all = pending + chunks[0];
        let d = drain_spec(all);
        if d.2 {
            (d.0, true)
        } else {
            let r = feed_chunks(all.subrange(d.1, all.len() as int), chunks.drop_first());
            (d.0 + r.0, r.1)
        }
    }
}

/// Pending bytes from which no frame can be read yet.
pub open spec fn settled(pending: Seq<u8>) -> bool {
    drain_spec(pending) == (Seq::<InboundMessage>::empty(), 0int, false)
}

/// What is left after reading the complete frames of a stream holds no
/// complete frame.
proof fn lemma_remainder_settled(s: Seq<u8>)
    requires
        !drain_spec(s).2,
    ensures
        settled(s.subrange(drain_spec(s).1, s.len() as int)),
    decreases s.len(),
{
    let d = drain_spec(s);
    if s.len() < HEADER_SIZE {
        assert(s.subrange(0, s.len() as int) =~= s);
    } else {
        match parse_spec(s) {
            Ok((msg, used)) => {
                let tail = s.subrange(used as int, s.len() as int);
                lemma_remainder_settled(tail);
                lemma_drain_bounds(tail);
                assert(tail.subrange(drain_spec(tail).1, tail.len() as int) =~= s.subrange(
                    d.1,
                    s.len() as int,
                ));
            },
            Err(_) => {
                assert(s.subrange(0, s.len() as int) =~= s);
            },
        }
    }
}

proof fn lemma_feed_chunks_from(pending: Seq<u8>, chunks: Seq<Seq<u8>>)
    requires
        settled(pending),
    ensures
        feed_chunks(pending, chunks) == (
            drain_spec(pending + chunks.flatten()).0,
            drain_spec(pending + chunks.flatten()).2,
        ),
    decreases chunks.len(),
{
    if chunks.len() == 0 {
        assert(pending + chunks.flatten() =~= pending);
    } else {
        let s = pending + chunks[0];
        let t = chunks.drop_first().flatten();
        assert(pending + chunks.flatten() =~= s + t);
        lemma_drain_prefix(s, t);
        let d = drain_spec(s);
        if !d.2 {
            lemma_remainder_settled(s);
            lemma_feed_chunks_from(s.subrange(d.1, s.len() as int), chunks.drop_first());
        }
    }
}

/// Reading a connection's bytes in chunks of any sizes gives exactly the
/// messages, and the verdict on a malformed frame, that reading all of
/// them at once gives: where the reads split the stream does not matter.
pub proof fn lemma_read_in_chunks(chunks: Seq<Seq<u8>>)
    ensures
        feed_chunks(Seq::empty(), chunks) == (drain_spec(chunks.flatten()).0, drain_spec(
            chunks.flatten(),
        ).2),
{
    assert(Seq::<u8>::empty() + chunks.flatten() =~= chunks.flatten());
    lemma_feed_chunks_from(Seq::empty(), chunks);
}

/// Hands out connection ids, shared by every transport so the engine sees
/// one id space. Ids start at 1 and go up by one per call, wrapping around
/// like the atomic counter they stand for; 0 marks reports that go to
/// nobody. Transports on several threads share one allocator behind a
/// lock.
pub struct ConnIdAllocator {
    next: u64,
}

impl ConnIdAllocator {
    /// The id the next call of `allocate` hands out.
    pub closed spec fn next_id(&self) -> u64 {
        self.next
    }

    pub fn new() -> (a: Self)
        ensures
            a.next_id() == 1,
    {
        ConnIdAllocator { next: 1 }
    }

    /// The next id; the one after it is one higher.
    pub fn allocate(&mut self) -> (id: ConnId)
        ensures
            id == old(self).next_id(),
            final(self).next_id() == old(self).next_id().wrapping_add(1),
    {
        let id = self.next;
        self.next = self.next.wrapping_add(1);
        id
    }
}

/// The ids that `k` successive calls of `allocate` hand out, starting
/// from an allocator whose next id is `next`.
pub open spec fn allocations(next: u64, k: nat) -> Seq<u64>
    decreases k,
{
    if k == 0 {
        Seq::empty()
    } else {
        seq![next] + allocations(next.wrapping_add(1), (k - 1) as nat)
    }
}

/// Without wrapping around, successive ids count up by one from `next`.
proof fn lemma_allocations_count_up(next: u64, k: nat)
    requires
        next + k <= u64::MAX + 1,
    ensures
        allocations(next, k).len() == k,
        forall|i: int| 0 <= i < k ==> #[trigger] allocations(next, k)[i] == next + i,
    decreases k,
{
    if k > 0 {
        let n1 = next.wrapping_add(1);
        if k > 1 {
            assert(n1 == next + 1);
        }
        if next < u64::MAX {
            assert(n1 == next + 1);
            lemma_allocations_count_up(n1, (k - 1) as nat);
            assert forall|i: int| 0 <= i < k implies #[trigger] allocations(next, k)[i] == next + i by {
                if i > 0 {
                    assert(allocations(next, k)[i] == allocations(n1, (k - 1) as nat)[i - 1]);
                }
            }
        } else {
            assert(k == 1);
            assert(allocations(n1, 0) =~= Seq::<u64>::empty());
        }
    }
}

/// A fresh allocator hands out the ids 1, 2, ..., k over its first `k`
/// calls, for any `k` below 2^64: all distinct, none 0, each above the one
/// before.
pub proof fn lemma_fresh_allocator_ids(k: nat)
    requires
        k < u64::MAX,
    ensures
        allocations(1, k).len() == k,
        forall|i: int| 0 <= i < k ==> #[trigger] allocations(1, k)[i] == i + 1,
        forall|i: int, j: int| 0 <= i < j < k ==> allocations(1, k)[i] < allocations(1, k)[j],
        forall|i: int| 0 <= i < k ==> #[trigger] allocations(1, k)[i] != 0,
{
    lemma_allocations_count_up(1, k);
}

/// What the dispatcher does with one execution report, given the sequence
/// number of the previous frame: the sequence number of this one, and the
/// connection and frame to send, unless the report is addressed to nobody.
pub fn dispatch(seq: u64, out: &OutboundExec) -> (r: (u64, Option<(ConnId, Vec<u8>)>))
    ensures
        r.0 == seq.wrapping_add(1),
        match r.1 {
            Some((conn, frame)) => conn == out.conn_id && out.conn_id != 0 && exists|ts: u64|
                frame@ == #[trigger] exec_report_frame(r.0, ts, out.body),
            None => out.conn_id == 0,
        },
{
    let next = seq.wrapping_add(1);
    if out.conn_id == 0 {
        return (next, None);
    }
    let mut buf: Vec<u8> = Vec::with_capacity(HEADER_SIZE + EXEC_REPORT_SIZE);
    encode_exec_report(next, &out.body, &mut buf);
    proof {
        let ts = choose|ts: u64| buf@ == Seq::<u8>::empty() + #[trigger] exec_report_frame(next, ts, out.body);
        assert(Seq::<u8>::empty() + exec_report_frame(next, ts, out.body) =~= exec_report_frame(next, ts, out.body));
        assert(buf@ == exec_report_frame(next, ts, out.body));
    }
    (next, Some((out.conn_id, buf)))
}

} // verus!
