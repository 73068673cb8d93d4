//! Write-ahead log records and their framing.
//!
//! The engine hands records to a writer thread, which frames and appends
//! them to disk. Record format on disk:
//!
//! ```text
//! len:u32_le | crc32:u32_le | record_type:u8 | payload[..]
//! ```
//!
//! `payload` is the wire-format body from `protocol`. The CRC covers
//! `record_type || payload`. `len` is the number of bytes after the length
//! field itself (i.e. `4 + 1 + payload.len()`).
//!
//! Framing and reading back are verified: `decode_records` returns, for a
//! log of framed records, exactly the record types and payloads written.

use vstd::bytes::*;
use vstd::prelude::*;
use vstd::slice::{slice_subrange, slice_to_vec};

use crate::protocol::{
    cancel_bytes, exec_report_bytes, get32, le32, new_order_bytes, put_cancel, put_exec_report,
    put_new_order, put_u32, read_u32, CancelOrderBody, ExecReportBody, NewOrderBody,
};

verus! {

pub const RECORD_NEW_ORDER: u8 = 1;

pub const RECORD_CANCEL: u8 = 2;

pub const RECORD_EXEC_REPORT: u8 = 3;

/// Flush once this many bytes are pending.
pub const FLUSH_BYTES: usize = 4096;

/// Flush once this many nanoseconds have passed since the last flush.
pub const FLUSH_INTERVAL_NS: u128 = 100_000;

/// A journal record: one wire-format body, tagged with its kind.
#[derive(Debug, Clone, Copy)]
pub enum WalRecord {
    NewOrder(NewOrderBody),
    Cancel(CancelOrderBody),
    ExecReport(ExecReportBody),
}

/// A raw record read back from a journal.
#[derive(Debug, Clone)]
pub struct DecodedRecord {
    pub record_type: u8,
    pub payload: Vec<u8>,
}

impl WalRecord {
    pub open spec fn type_spec(self) -> u8 {
        match self {
            WalRecord::NewOrder(_) => RECORD_NEW_ORDER,
            WalRecord::Cancel(_) => RECORD_CANCEL,
            WalRecord::ExecReport(_) => RECORD_EXEC_REPORT,
        }
    }

    /// The record's payload: its body in wire format.
    pub open spec fn payload_spec(self) -> Seq<u8> {
        match self {
            WalRecord::NewOrder(b) => new_order_bytes(b),
            WalRecord::Cancel(b) => cancel_bytes(b),
            WalRecord::ExecReport(b) => exec_report_bytes(b),
        }
    }

    pub fn new_order(body: NewOrderBody) -> (r: Self)
        ensures
            r == WalRecord::NewOrder(body),
    {
        WalRecord::NewOrder(body)
    }

    pub fn cancel(body: CancelOrderBody) -> (r: Self)
        ensures
            r == WalRecord::Cancel(body),
    {
        WalRecord::Cancel(body)
    }

    pub fn exec_report(body: ExecReportBody) -> (r: Self)
        ensures
            r == WalRecord::ExecReport(body),
    {
        WalRecord::ExecReport(body)
    }

    pub fn record_type(&self) -> (t: u8)
        ensures
            t == self.type_spec(),
    {
        match self {
            WalRecord::NewOrder(_) => RECORD_NEW_ORDER,
            WalRecord::Cancel(_) => RECORD_CANCEL,
            WalRecord::ExecReport(_) => RECORD_EXEC_REPORT,
        }
    }

    /// The payload bytes, appended to `out`.
    pub fn payload_bytes(&self, out: &mut Vec<u8>)
        ensures
            final(out)@ == old(out)@ + self.payload_spec(),
    {
        match self {
            WalRecord::NewOrder(b) => put_new_order(out, b),
            WalRecord::Cancel(b) => put_cancel(out, b),
            WalRecord::ExecReport(b) => put_exec_report(out, b),
        }
    }
}

// ---------------------------------------------------------------------------
// Checksum, from `crc32fast`
// ---------------------------------------------------------------------------
/// The CRC-32 (IEEE) checksum of a byte sequence, as `crc32fast` computes it.
pub uninterp spec fn crc32(bytes: Seq<u8>) -> u32;

/// `crc32fast::hash`: the CRC-32 checksum of `bytes`. Trusted to be a
/// function of the bytes alone, named `crc32`.
#[verifier::external_body]
fn crc32_of(bytes: &[u8]) -> (r: u32)
    ensures
        r == crc32(bytes@),
{
    crc32fast::hash(bytes)
}

// ---------------------------------------------------------------------------
// Framing
// ---------------------------------------------------------------------------
/// The bytes of one framed record.
pub open spec fn frame_spec(record_type: u8, payload: Seq<u8>) -> Seq<u8> {
    let body = seq![record_type] + payload;
    le32((4 + body.len()) as u32) + le32(crc32(body)) + body
}

/// The bytes of a journal holding `recs`, in order.
pub open spec fn log_bytes(recs: Seq<WalRecord>) -> Seq<u8>
    decreases recs.len(),
{
    if recs.len() == 0 {
        Seq::empty()
    } else {
        frame_spec(recs[0].type_spec(), recs[0].payload_spec()) + log_bytes(recs.drop_first())
    }
}

/// Append the frame of `record` to `out`: what the writer thread writes.
pub fn encode_frame(record: &WalRecord, out: &mut Vec<u8>)
    ensures
        final(out)@ == old(out)@ + frame_spec(record.type_spec(), record.payload_spec()),
{
    let mut body: Vec<u8> = Vec::new();
    body.push(record.record_type());
    record.payload_bytes(&mut body);
    let crc = crc32_of(body.as_slice());
    proof {
        lemma_payload_len(*record);
    }
    let len = (4 + body.len()) as u32;
    put_u32(out, len);
    put_u32(out, crc);
    out.append(&mut body);
}

proof fn lemma_payload_len(r: WalRecord)
    ensures
        r.payload_spec().len() <= 48,
{
    match r {
        WalRecord::NewOrder(b) => crate::protocol::lemma_new_order_round_trip(b),
        WalRecord::Cancel(b) => crate::protocol::lemma_cancel_round_trip(b),
        WalRecord::ExecReport(b) => crate::protocol::lemma_exec_report_round_trip(b),
    }
}

/// The layout of every framed record: the length field counts the bytes
/// after it, the checksum field holds the CRC-32 of all the bytes after
/// it (the type byte and the payload), then come the record's type and its
/// payload.
pub proof fn lemma_frame_layout(record: WalRecord)
    ensures
        ({
            let f = frame_spec(record.type_spec(), record.payload_spec());
            &&& f.len() == 9 + record.payload_spec().len()
            &&& f.subrange(0, 4) == le32((f.len() - 4) as u32)
            &&& f.subrange(4, 8) == le32(crc32(f.subrange(8, f.len() as int)))
            &&& f[8] == record.type_spec()
            &&& f.subrange(9, f.len() as int) == record.payload_spec()
        }),
{
    let body = seq![record.type_spec()] + record.payload_spec();
    let f = frame_spec(record.type_spec(), record.payload_spec());
    let head = le32((4 + body.len()) as u32);
    let c = le32(crc32(body));
    lemma_auto_spec_u32_to_from_le_bytes();
    assert(f.subrange(0, 4) =~= head);
    assert(f.subrange(4, 8) =~= c);
    assert(f.subrange(8, f.len() as int) =~= body);
    assert(f.subrange(9, f.len() as int) =~= record.payload_spec());
}

/// Whether enough bytes are pending, or enough time has passed, to flush.
pub fn flush_due(pending_bytes: usize, since_flush_ns: u128) -> (r: bool)
    ensures
        r == (pending_bytes >= FLUSH_BYTES || since_flush_ns >= FLUSH_INTERVAL_NS),
{
    pending_bytes >= FLUSH_BYTES || since_flush_ns >= FLUSH_INTERVAL_NS
}

// ---------------------------------------------------------------------------
// Reading back
// ---------------------------------------------------------------------------
/// The records of a journal's bytes, as (type, payload) pairs. Reading
/// stops at the first frame that is not complete.
pub open spec fn decode_spec(buf: Seq<u8>) -> Seq<(u8, Seq<u8>)>
    decreases buf.len(),
{
    if buf.len() < 4 {
        Seq::empty()
    } else {
        let len = get32(buf, 0);
        if buf.len() - 4 < len || len < 5 {
            Seq::empty()
        } else {
            seq![(buf[8], buf.subrange(9, 4 + len))] + decode_spec(buf.subrange(4 + len, buf.len() as int))
        }
    }
}

/// Every complete frame is long enough to hold its checksum and type.
pub open spec fn frames_ok(buf: Seq<u8>) -> bool
    decreases buf.len(),
{
    if buf.len() < 4 {
        true
    } else {
        let len = get32(buf, 0);
        if buf.len() - 4 < len {
            true
        } else {
            len >= 5 && frames_ok(buf.subrange(4 + len, buf.len() as int))
        }
    }
}

impl DecodedRecord {
    pub open spec fn view(&self) -> (u8, Seq<u8>) {
        (self.record_type, self.payload@)
    }
}

/// Whether every complete frame of `buf` holds a checksum and a type, as
/// `decode_records` needs.
pub fn frames_well_formed(buf: &[u8]) -> (r: bool)
    ensures
        r == frames_ok(buf@),
{
    let n = buf.len();
    let mut i: usize = 0;
    proof {
        assert(buf@.subrange(0, n as int) =~= buf@);
    }
    while i < n
        invariant
            0 <= i <= n,
            n == buf@.len(),
            frames_ok(buf@) == frames_ok(buf@.subrange(i as int, n as int)),
        decreases n - i,
    {
        let ghost s = buf@.subrange(i as int, n as int);
        if n - i < 4 {
            return true;
        }
        let len = read_u32(buf, i) as usize;
        proof {
            assert(s.subrange(0, 4) =~= buf@.subrange(i as int, i + 4));
        }
        let j = i + 4;
        if n - j < len {
            return true;
        }
        if len < 5 {
            return false;
        }
        proof {
            assert(s.subrange(4 + len, s.len() as int) =~= buf@.subrange(j + len, n as int));
        }
        i = j + len;
    }
    proof {
        assert(buf@.subrange(i as int, n as int).len() == 0);
    }
    true
}

/// Read back every complete record of a journal's bytes.
pub fn decode_records(buf: &[u8]) -> (out: Vec<DecodedRecord>)
    requires
        frames_ok(buf@),
    ensures
        out@.map_values(|d: DecodedRecord| d.view()) == decode_spec(buf@),
{
    let n = buf.len();
    let mut out: Vec<DecodedRecord> = Vec::new();
    let mut i: usize = 0;
    proof {
        assert(buf@.subrange(0, n as int) =~= buf@);
        assert(out@.map_values(|d: DecodedRecord| d.view()) =~= Seq::<(u8, Seq<u8>)>::empty());
    }
    while i < n
        invariant
            0 <= i <= n,
            n == buf@.len(),
            frames_ok(buf@.subrange(i as int, n as int)),
            decode_spec(buf@) == out@.map_values(|d: DecodedRecord| d.view()) + decode_spec(
                buf@.subrange(i as int, n as int),
            ),
        ensures
            decode_spec(buf@) == out@.map_values(|d: DecodedRecord| d.view()),
        decreases n - i,
    {
        let ghost s = buf@.subrange(i as int, n as int);
        let ghost before = out@.map_values(|d: DecodedRecord| d.view());
        if n - i < 4 {
            proof {
                assert(decode_spec(s) =~= Seq::<(u8, Seq<u8>)>::empty());
                assert(before + decode_spec(s) =~= before);
            }
            break;
        }
        let len = read_u32(buf, i) as usize;
        proof {
            assert(s.subrange(0, 4) =~= buf@.subrange(i as int, i + 4));
        }
        let j = i + 4;
        if n - j < len {
            proof {
                assert(decode_spec(s) =~= Seq::<(u8, Seq<u8>)>::empty());
                assert(before + decode_spec(s) =~= before);
            }
            break;
        }
        let record_type = buf[j + 4];
        let payload = slice_to_vec(slice_subrange(buf, j + 5, j + len));
        let ghost d = DecodedRecord { record_type, payload };
        out.push(DecodedRecord { record_type, payload });
        proof {
            assert(s[8] == buf@[j + 4]);
            assert(s.subrange(9, 4 + len) =~= buf@.subrange(j + 5, j + len));
            assert(s.subrange(4 + len, s.len() as int) =~= buf@.subrange(j + len, n as int));
            assert(out@.map_values(|d: DecodedRecord| d.view()) =~= before.push(
                (record_type, payload@),
            ));
        }
        i = j + len;
    }
    out
}

// ---------------------------------------------------------------------------
// Laws
// ---------------------------------------------------------------------------
/// The (type, payload) pairs of a sequence of records.
pub open spec fn record_views(recs: Seq<WalRecord>) -> Seq<(u8, Seq<u8>)> {
    recs.map_values(|r: WalRecord| (r.type_spec(), r.payload_spec()))
}

/// A journal written as a sequence of framed records reads back as exactly
/// those records: same types, byte-equal payloads, same order.
pub proof fn lemma_log_round_trip(recs: Seq<WalRecord>)
    ensures
        frames_ok(log_bytes(recs)),
        decode_spec(log_bytes(recs)) == record_views(recs),
    decreases recs.len(),
{
    if recs.len() == 0 {
        assert(record_views(recs) =~= Seq::<(u8, Seq<u8>)>::empty());
    } else {
        let r = recs[0];
        let rest = recs.drop_first();
        lemma_log_round_trip(rest);
        lemma_payload_len(r);
        lemma_auto_spec_u32_to_from_le_bytes();
        let p = r.payload_spec();
        let body = seq![r.type_spec()] + p;
        let f = frame_spec(r.type_spec(), p);
        let all = f + log_bytes(rest);
        let len = (4 + body.len()) as u32;
        assert(all.subrange(0, 4) =~= le32(len));
        assert(get32(all, 0) == len);
        assert(all[8] == r.type_spec());
        assert(all.subrange(9, 4 + len) =~= p);
        assert(all.subrange(4 + len, all.len() as int) =~= log_bytes(rest));
        assert(record_views(recs) =~= seq![(r.type_spec(), p)] + record_views(rest));
    }
}

/// What `encode_frame` appends for each record, in order, is the journal of
/// those records.
pub proof fn lemma_log_bytes_push(recs: Seq<WalRecord>, r: WalRecord)
    ensures
        log_bytes(recs.push(r)) == log_bytes(recs) + frame_spec(r.type_spec(), r.payload_spec()),
    decreases recs.len(),
{
    if recs.len() == 0 {
        assert(recs.push(r).drop_first() =~= Seq::<WalRecord>::empty());
        assert(log_bytes(recs.push(r).drop_first()) =~= Seq::<u8>::empty());
        assert(recs.push(r)[0] == r);
        assert(log_bytes(recs.push(r)) =~= frame_spec(r.type_spec(), r.payload_spec()) + Seq::<
            u8,
        >::empty());
        assert(log_bytes(recs) =~= Seq::<u8>::empty());
        assert(log_bytes(recs) + frame_spec(r.type_spec(), r.payload_spec()) =~= frame_spec(
            r.type_spec(),
            r.payload_spec(),
        ));
    } else {
        lemma_log_bytes_push(recs.drop_first(), r);
        assert(recs.push(r).drop_first() =~= recs.drop_first().push(r));
        assert(recs.push(r)[0] == recs[0]);
    }
}

/// Reading a journal followed by any bytes reads its records, then what
/// those bytes hold.
pub proof fn lemma_log_concat(recs: Seq<WalRecord>, t: Seq<u8>)
    ensures
        decode_spec(log_bytes(recs) + t) == record_views(recs) + decode_spec(t),
        frames_ok(log_bytes(recs) + t) == frames_ok(t),
    decreases recs.len(),
{
    if recs.len() == 0 {
        assert(log_bytes(recs) + t =~= t);
        assert(record_views(recs) + decode_spec(t) =~= decode_spec(t));
    } else {
        let r = recs[0];
        let rest = recs.drop_first();
        lemma_log_concat(rest, t);
        lemma_payload_len(r);
        lemma_auto_spec_u32_to_from_le_bytes();
        let p = r.payload_spec();
        let body = seq![r.type_spec()] + p;
        let f = frame_spec(r.type_spec(), p);
        let tail = log_bytes(rest) + t;
        let all = f + tail;
        assert(log_bytes(recs) + t =~= all);
        let len = (4 + body.len()) as u32;
        assert(all.subrange(0, 4) =~= le32(len));
        assert(get32(all, 0) == len);
        assert(all[8] == r.type_spec());
        assert(all.subrange(9, 4 + len) =~= p);
        assert(all.subrange(4 + len, all.len() as int) =~= tail);
        assert(record_views(recs) =~= seq![(r.type_spec(), p)] + record_views(rest));
        assert(seq![(r.type_spec(), p)] + (record_views(rest) + decode_spec(t)) =~= record_views(recs)
            + decode_spec(t));
    }
}

/// A journal whose last frame was cut short while being written reads back
/// as the records before it: the torn frame is dropped.
pub proof fn lemma_torn_tail(recs: Seq<WalRecord>, r: WalRecord, k: int)
    requires
        0 <= k < frame_spec(r.type_spec(), r.payload_spec()).len(),
    ensures
        frames_ok(log_bytes(recs) + frame_spec(r.type_spec(), r.payload_spec()).subrange(0, k)),
        decode_spec(log_bytes(recs) + frame_spec(r.type_spec(), r.payload_spec()).subrange(0, k))
            == record_views(recs),
{
    let f = frame_spec(r.type_spec(), r.payload_spec());
    let t = f.subrange(0, k);
    lemma_log_concat(recs, t);
    lemma_payload_len(r);
    lemma_auto_spec_u32_to_from_le_bytes();
    if k >= 4 {
        let body = seq![r.type_spec()] + r.payload_spec();
        let len = (4 + body.len()) as u32;
        assert(t.subrange(0, 4) =~= f.subrange(0, 4));
        assert(f.subrange(0, 4) =~= le32(len));
        assert(get32(t, 0) == len);
    }
    assert(record_views(recs) + Seq::<(u8, Seq<u8>)>::empty() =~= record_views(recs));
}

} // verus!
