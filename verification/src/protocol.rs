//! Custom binary wire protocol.
//!
//! Layout is fixed and little-endian. Every frame is a 32-byte header
//! followed by a body whose size depends on the message type:
//!
//! ```text
//! header: seq:u64 | timestamp_ns:u64 | magic:u32 | length:u32 | version:u8 | msg_type:u8 | pad:[u8;6]
//! new order (48): price:i64 | qty:u64 | client_id:u64 | order_id:u64 | symbol_id:u32
//!                 | side:u8 | ord_type:u8 | tif:u8 | pad:u8 | pad2:u32 | pad3:u32
//! cancel (16):    order_id:u64 | symbol_id:u32 | pad:u32
//! exec report (48): order_id:u64 | exec_id:u64 | last_price:i64 | last_qty:u64
//!                 | leaves_qty:u64 | symbol_id:u32 | status:u8 | side:u8 | pad:[u8;2]
//! ```
//!
//! Parsing copies the fields out of the buffer, so a parsed message never
//! borrows from it. `parse` is specified by `parse_spec`, and every encoder
//! produces bytes that `parse_spec` maps back to the encoded message.

use vstd::bytes::*;
use vstd::prelude::*;
use vstd::slice::slice_subrange;

use crate::clock::{duration_nanos, since_epoch, system_clock_now};
use crate::error::Error;

verus! {

/// `QFTX` in ASCII, read as a little-endian `u32`.
pub const MAGIC: u32 = 0x5854_4651u32;

pub const VERSION: u8 = 1;

pub const HEADER_SIZE: usize = 32;

pub const NEW_ORDER_SIZE: usize = 48;

pub const CANCEL_ORDER_SIZE: usize = 16;

pub const EXEC_REPORT_SIZE: usize = 48;

// ---------------------------------------------------------------------------
// Enumerations carried as single bytes on the wire
// ---------------------------------------------------------------------------
#[derive(Debug, Clone, Copy, PartialEq, Eq, Structural)]
pub enum MsgType {
    NewOrder,
    CancelOrder,
    ExecutionReport,
    Heartbeat,
}

impl MsgType {
    /// The byte that stands for this message type on the wire.
    pub open spec fn code_spec(self) -> u8 {
        match self {
            MsgType::NewOrder => 1,
            MsgType::CancelOrder => 2,
            MsgType::ExecutionReport => 3,
            MsgType::Heartbeat => 4,
        }
    }

    /// The message type a wire byte stands for, if any.
    pub open spec fn from_code(v: u8) -> Option<MsgType> {
        if v == 1 {
            Some(MsgType::NewOrder)
        } else if v == 2 {
            Some(MsgType::CancelOrder)
        } else if v == 3 {
            Some(MsgType::ExecutionReport)
        } else if v == 4 {
            Some(MsgType::Heartbeat)
        } else {
            None
        }
    }

    pub fn code(self) -> (c: u8)
        ensures
            c == self.code_spec(),
            MsgType::from_code(c) == Some(self),
    {
        match self {
            MsgType::NewOrder => 1,
            MsgType::CancelOrder => 2,
            MsgType::ExecutionReport => 3,
            MsgType::Heartbeat => 4,
        }
    }

    pub fn from_u8(v: u8) -> (r: Result<Self, Error>)
        ensures
            match MsgType::from_code(v) {
                Some(t) => r == Ok::<MsgType, Error>(t),
                None => r == Err::<MsgType, Error>(Error::UnknownMsgType(v)),
            },
    {
        match v {
            1 => Ok(MsgType::NewOrder),
            2 => Ok(MsgType::CancelOrder),
            3 => Ok(MsgType::ExecutionReport),
            4 => Ok(MsgType::Heartbeat),
            _ => Err(Error::UnknownMsgType(v)),
        }
    }
}

#[derive(Debug, Clone, Copy, PartialEq, Eq, Structural)]
pub enum Side {
    Buy,
    Sell,
}

impl Side {
    pub open spec fn code_spec(self) -> u8 {
        match self {
            Side::Buy => 0,
            Side::Sell => 1,
        }
    }

    pub open spec fn from_code(v: u8) -> Option<Side> {
        if v == 0 {
            Some(Side::Buy)
        } else if v == 1 {
            Some(Side::Sell)
        } else {
            None
        }
    }

    pub open spec fn opposite_spec(self) -> Side {
        match self {
            Side::Buy => Side::Sell,
            Side::Sell => Side::Buy,
        }
    }

    pub fn code(self) -> (c: u8)
        ensures
            c == self.code_spec(),
            Side::from_code(c) == Some(self),
    {
        match self {
            Side::Buy => 0,
            Side::Sell => 1,
        }
    }

    pub fn from_u8(v: u8) -> (r: Option<Self>)
        ensures
            r == Side::from_code(v),
    {
        match v {
            0 => Some(Side::Buy),
            1 => Some(Side::Sell),
            _ => None,
        }
    }

    pub fn opposite(self) -> (r: Self)
        ensures
            r == self.opposite_spec(),
            r != self,
            r.opposite_spec() == self,
    {
        match self {
            Side::Buy => Side::Sell,
            Side::Sell => Side::Buy,
        }
    }
}

#[derive(Debug, Clone, Copy, PartialEq, Eq, Structural)]
pub enum OrdType {
    Limit,
    Market,
}

impl OrdType {
    pub open spec fn code_spec(self) -> u8 {
        match self {
            OrdType::Limit => 0,
            OrdType::Market => 1,
        }
    }

    pub open spec fn from_code(v: u8) -> Option<OrdType> {
        if v == 0 {
            Some(OrdType::Limit)
        } else if v == 1 {
            Some(OrdType::Market)
        } else {
            None
        }
    }

    pub fn code(self) -> (c: u8)
        ensures
            c == self.code_spec(),
            OrdType::from_code(c) == Some(self),
    {
        match self {
            OrdType::Limit => 0,
            OrdType::Market => 1,
        }
    }

    pub fn from_u8(v: u8) -> (r: Option<Self>)
        ensures
            r == OrdType::from_code(v),
    {
        match v {
            0 => Some(OrdType::Limit),
            1 => Some(OrdType::Market),
            _ => None,
        }
    }
}

/// Time-in-force.
#[derive(Debug, Clone, Copy, PartialEq, Eq, Structural)]
pub enum Tif {
    Day,
    Ioc,
    Fok,
}

impl Tif {
    pub open spec fn code_spec(self) -> u8 {
        match self {
            Tif::Day => 0,
            Tif::Ioc => 1,
            Tif::Fok => 2,
        }
    }

    pub open spec fn from_code(v: u8) -> Option<Tif> {
        if v == 0 {
            Some(Tif::Day)
        } else if v == 1 {
            Some(Tif::Ioc)
        } else if v == 2 {
            Some(Tif::Fok)
        } else {
            None
        }
    }

    pub fn code(self) -> (c: u8)
        ensures
            c == self.code_spec(),
            Tif::from_code(c) == Some(self),
    {
        match self {
            Tif::Day => 0,
            Tif::Ioc => 1,
            Tif::Fok => 2,
        }
    }

    pub fn from_u8(v: u8) -> (r: Option<Self>)
        ensures
            r == Tif::from_code(v),
    {
        match v {
            0 => Some(Tif::Day),
            1 => Some(Tif::Ioc),
            2 => Some(Tif::Fok),
            _ => None,
        }
    }
}

#[derive(Debug, Clone, Copy, PartialEq, Eq, Structural)]
pub enum ExecStatus {
    New,
    PartiallyFilled,
    Filled,
    Cancelled,
    Rejected,
}

impl ExecStatus {
    pub open spec fn code_spec(self) -> u8 {
        match self {
            ExecStatus::New => 0,
            ExecStatus::PartiallyFilled => 1,
            ExecStatus::Filled => 2,
            ExecStatus::Cancelled => 3,
            ExecStatus::Rejected => 4,
        }
    }

    pub fn code(self) -> (c: u8)
        ensures
            c == self.code_spec(),
    {
        match self {
            ExecStatus::New => 0,
            ExecStatus::PartiallyFilled => 1,
            ExecStatus::Filled => 2,
            ExecStatus::Cancelled => 3,
            ExecStatus::Rejected => 4,
        }
    }
}

// ---------------------------------------------------------------------------
// Wire structs
// ---------------------------------------------------------------------------
#[derive(Debug, Clone, Copy)]
pub struct Header {
    pub seq: u64,
    pub timestamp_ns: u64,
    pub magic: u32,
    pub length: u32,
    pub version: u8,
    pub msg_type: u8,
    pub _pad: [u8; 6],
}

#[derive(Debug, Clone, Copy)]
pub struct NewOrderBody {
    pub price: i64,
    pub qty: u64,
    pub client_id: u64,
    pub order_id: u64,
    pub symbol_id: u32,
    pub side: u8,
    pub ord_type: u8,
    pub tif: u8,
    pub _pad: u8,
    pub _pad2: u32,
    pub _pad3: u32,
}

#[derive(Debug, Clone, Copy)]
pub struct CancelOrderBody {
    pub order_id: u64,
    pub symbol_id: u32,
    pub _pad: u32,
}

#[derive(Debug, Clone, Copy)]
pub struct ExecReportBody {
    pub order_id: u64,
    pub exec_id: u64,
    pub last_price: i64,
    pub last_qty: u64,
    pub leaves_qty: u64,
    pub symbol_id: u32,
    pub status: u8,
    pub side: u8,
    pub _pad: [u8; 2],
}

/// A parsed inbound message. Bodies are copied out of the buffer, so the
/// value does not borrow from it and is cheap to forward across a channel.
#[derive(Debug, Clone, Copy)]
#[allow(inconsistent_fields)]
pub enum InboundMessage {
    NewOrder { header: Header, body: NewOrderBody },
    Cancel { header: Header, body: CancelOrderBody },
    Heartbeat { header: Header },
}

// ---------------------------------------------------------------------------
// Byte layout, as specification
// ---------------------------------------------------------------------------
pub open spec fn le64(x: u64) -> Seq<u8> {
    spec_u64_to_le_bytes(x)
}

pub open spec fn le32(x: u32) -> Seq<u8> {
    spec_u32_to_le_bytes(x)
}

pub open spec fn get64(s: Seq<u8>, off: int) -> u64 {
    spec_u64_from_le_bytes(s.subrange(off, off + 8))
}

pub open spec fn get32(s: Seq<u8>, off: int) -> u32 {
    spec_u32_from_le_bytes(s.subrange(off, off + 4))
}

pub open spec fn header_bytes(h: Header) -> Seq<u8> {
    le64(h.seq) + le64(h.timestamp_ns) + le32(h.magic) + le32(h.length) + seq![h.version, h.msg_type]
        + h._pad@
}

pub open spec fn header_from_bytes(s: Seq<u8>) -> Header {
    Header {
        seq: get64(s, 0),
        timestamp_ns: get64(s, 8),
        magic: get32(s, 16),
        length: get32(s, 20),
        version: s[24],
        msg_type: s[25],
        _pad: [s[26], s[27], s[28], s[29], s[30], s[31]],
    }
}

pub open spec fn new_order_bytes(b: NewOrderBody) -> Seq<u8> {
    le64(b.price as u64) + le64(b.qty) + le64(b.client_id) + le64(b.order_id) + le32(b.symbol_id)
        + seq![b.side, b.ord_type, b.tif, b._pad] + le32(b._pad2) + le32(b._pad3)
}

pub open spec fn new_order_from_bytes(s: Seq<u8>) -> NewOrderBody {
    NewOrderBody {
        price: get64(s, 0) as i64,
        qty: get64(s, 8),
        client_id: get64(s, 16),
        order_id: get64(s, 24),
        symbol_id: get32(s, 32),
        side: s[36],
        ord_type: s[37],
        tif: s[38],
        _pad: s[39],
        _pad2: get32(s, 40),
        _pad3: get32(s, 44),
    }
}

pub open spec fn cancel_bytes(b: CancelOrderBody) -> Seq<u8> {
    le64(b.order_id) + le32(b.symbol_id) + le32(b._pad)
}

pub open spec fn cancel_from_bytes(s: Seq<u8>) -> CancelOrderBody {
    CancelOrderBody { order_id: get64(s, 0), symbol_id: get32(s, 8), _pad: get32(s, 12) }
}

pub open spec fn exec_report_bytes(b: ExecReportBody) -> Seq<u8> {
    le64(b.order_id) + le64(b.exec_id) + le64(b.last_price as u64) + le64(b.last_qty) + le64(
        b.leaves_qty,
    ) + le32(b.symbol_id) + seq![b.status, b.side] + b._pad@
}

pub open spec fn exec_report_from_bytes(s: Seq<u8>) -> ExecReportBody {
    ExecReportBody {
        order_id: get64(s, 0),
        exec_id: get64(s, 8),
        last_price: get64(s, 16) as i64,
        last_qty: get64(s, 24),
        leaves_qty: get64(s, 32),
        symbol_id: get32(s, 40),
        status: s[44],
        side: s[45],
        _pad: [s[46], s[47]],
    }
}

/// What `parse` returns for a buffer: the first frame in it, or the reason
/// it holds none.
pub open spec fn parse_spec(bytes: Seq<u8>) -> Result<(InboundMessage, usize), Error> {
    if bytes.len() < HEADER_SIZE {
        Err(Error::ShortBuffer { need: HEADER_SIZE, have: bytes.len() as usize })
    } else {
        let header = header_from_bytes(bytes.subrange(0, HEADER_SIZE as int));
        let total = HEADER_SIZE + header.length;
        let body = bytes.subrange(HEADER_SIZE as int, total);
        if header.magic != MAGIC {
            Err(Error::BadMagic { expected: MAGIC, got: header.magic })
        } else if header.version != VERSION {
            Err(Error::BadVersion(header.version))
        } else if bytes.len() < total {
            Err(
                Error::ShortBuffer {
                    need: if total <= usize::MAX {
                        total as usize
                    } else {
                        usize::MAX
                    },
                    have: bytes.len() as usize,
                },
            )
        } else {
            match MsgType::from_code(header.msg_type) {
                None => Err(Error::UnknownMsgType(header.msg_type)),
                Some(MsgType::NewOrder) => if header.length != NEW_ORDER_SIZE {
                    Err(Error::LengthMismatch { header: header.length, body: NEW_ORDER_SIZE })
                } else {
                    Ok(
                        (
                            InboundMessage::NewOrder { header, body: new_order_from_bytes(body) },
                            total as usize,
                        ),
                    )
                },
                Some(MsgType::CancelOrder) => if header.length != CANCEL_ORDER_SIZE {
                    Err(Error::LengthMismatch { header: header.length, body: CANCEL_ORDER_SIZE })
                } else {
                    Ok(
                        (
                            InboundMessage::Cancel { header, body: cancel_from_bytes(body) },
                            total as usize,
                        ),
                    )
                },
                Some(MsgType::Heartbeat) => if header.length != 0 {
                    Err(Error::LengthMismatch { header: header.length, body: 0 })
                } else {
                    Ok((InboundMessage::Heartbeat { header }, total as usize))
                },
                Some(MsgType::ExecutionReport) => Err(Error::UnknownMsgType(header.msg_type)),
            }
        }
    }
}

/// The header `make_header` builds for an outbound frame.
pub open spec fn frame_header(seq: u64, ts: u64, msg_type: MsgType, body_len: u32) -> Header {
    Header {
        seq,
        timestamp_ns: ts,
        magic: MAGIC,
        length: body_len,
        version: VERSION,
        msg_type: msg_type.code_spec(),
        _pad: [0, 0, 0, 0, 0, 0],
    }
}

pub open spec fn new_order_frame(seq: u64, ts: u64, body: NewOrderBody) -> Seq<u8> {
    header_bytes(frame_header(seq, ts, MsgType::NewOrder, NEW_ORDER_SIZE as u32)) + new_order_bytes(
        body,
    )
}

pub open spec fn cancel_frame(seq: u64, ts: u64, body: CancelOrderBody) -> Seq<u8> {
    header_bytes(frame_header(seq, ts, MsgType::CancelOrder, CANCEL_ORDER_SIZE as u32))
        + cancel_bytes(body)
}

pub open spec fn exec_report_frame(seq: u64, ts: u64, body: ExecReportBody) -> Seq<u8> {
    header_bytes(frame_header(seq, ts, MsgType::ExecutionReport, EXEC_REPORT_SIZE as u32))
        + exec_report_bytes(body)
}

// ---------------------------------------------------------------------------
// Reading and writing little-endian fields
// ---------------------------------------------------------------------------
pub(crate) fn read_u64(b: &[u8], off: usize) -> (x: u64)
    requires
        off + 8 <= b@.len(),
    ensures
        x == get64(b@, off as int),
{
    let _len = b.len();
    u64_from_le_bytes(slice_subrange(b, off, off + 8))
}

pub(crate) fn read_u32(b: &[u8], off: usize) -> (x: u32)
    requires
        off + 4 <= b@.len(),
    ensures
        x == get32(b@, off as int),
{
    let _len = b.len();
    u32_from_le_bytes(slice_subrange(b, off, off + 4))
}

fn put_u64(out: &mut Vec<u8>, x: u64)
    ensures
        final(out)@ == old(out)@ + le64(x),
{
    let mut b = u64_to_le_bytes(x);
    out.append(&mut b);
}

pub(crate) fn put_u32(out: &mut Vec<u8>, x: u32)
    ensures
        final(out)@ == old(out)@ + le32(x),
{
    let mut b = u32_to_le_bytes(x);
    out.append(&mut b);
}

fn put_i64(out: &mut Vec<u8>, x: i64)
    ensures
        final(out)@ == old(out)@ + le64(x as u64),
{
    put_u64(out, x as u64);
}

fn read_header(b: &[u8]) -> (h: Header)
    requires
        HEADER_SIZE <= b@.len(),
    ensures
        h == header_from_bytes(b@.subrange(0, HEADER_SIZE as int)),
{
    let ghost s = b@.subrange(0, HEADER_SIZE as int);
    proof {
        assert(s.subrange(0, 8) =~= b@.subrange(0, 8));
        assert(s.subrange(8, 16) =~= b@.subrange(8, 16));
        assert(s.subrange(16, 20) =~= b@.subrange(16, 20));
        assert(s.subrange(20, 24) =~= b@.subrange(20, 24));
    }
    Header {
        seq: read_u64(b, 0),
        timestamp_ns: read_u64(b, 8),
        magic: read_u32(b, 16),
        length: read_u32(b, 20),
        version: b[24],
        msg_type: b[25],
        _pad: [b[26], b[27], b[28], b[29], b[30], b[31]],
    }
}

fn read_new_order(b: &[u8]) -> (o: NewOrderBody)
    requires
        b@.len() == NEW_ORDER_SIZE,
    ensures
        o == new_order_from_bytes(b@),
{
    NewOrderBody {
        price: read_u64(b, 0) as i64,
        qty: read_u64(b, 8),
        client_id: read_u64(b, 16),
        order_id: read_u64(b, 24),
        symbol_id: read_u32(b, 32),
        side: b[36],
        ord_type: b[37],
        tif: b[38],
        _pad: b[39],
        _pad2: read_u32(b, 40),
        _pad3: read_u32(b, 44),
    }
}

fn read_cancel(b: &[u8]) -> (o: CancelOrderBody)
    requires
        b@.len() == CANCEL_ORDER_SIZE,
    ensures
        o == cancel_from_bytes(b@),
{
    CancelOrderBody { order_id: read_u64(b, 0), symbol_id: read_u32(b, 8), _pad: read_u32(b, 12) }
}

pub(crate) fn read_exec_report(b: &[u8]) -> (o: ExecReportBody)
    requires
        b@.len() == EXEC_REPORT_SIZE,
    ensures
        o == exec_report_from_bytes(b@),
{
    ExecReportBody {
        order_id: read_u64(b, 0),
        exec_id: read_u64(b, 8),
        last_price: read_u64(b, 16) as i64,
        last_qty: read_u64(b, 24),
        leaves_qty: read_u64(b, 32),
        symbol_id: read_u32(b, 40),
        status: b[44],
        side: b[45],
        _pad: [b[46], b[47]],
    }
}

fn put_header(out: &mut Vec<u8>, h: &Header)
    ensures
        final(out)@ == old(out)@ + header_bytes(*h),
{
    put_u64(out, h.seq);
    put_u64(out, h.timestamp_ns);
    put_u32(out, h.magic);
    put_u32(out, h.length);
    out.push(h.version);
    out.push(h.msg_type);
    let mut i: usize = 0;
    while i < 6
        invariant
            0 <= i <= 6,
            out@ == old(out)@ + le64(h.seq) + le64(h.timestamp_ns) + le32(h.magic) + le32(h.length)
                + seq![h.version, h.msg_type] + h._pad@.subrange(0, i as int),
        decreases 6 - i,
    {
        out.push(h._pad[i]);
        proof {
            assert(h._pad@.subrange(0, i + 1) =~= h._pad@.subrange(0, i as int).push(h._pad@[i as int]));
        }
        i += 1;
    }
    proof {
        assert(h._pad@.subrange(0, 6) =~= h._pad@);
    }
}

pub(crate) fn put_new_order(out: &mut Vec<u8>, b: &NewOrderBody)
    ensures
        final(out)@ == old(out)@ + new_order_bytes(*b),
{
    put_i64(out, b.price);
    put_u64(out, b.qty);
    put_u64(out, b.client_id);
    put_u64(out, b.order_id);
    put_u32(out, b.symbol_id);
    out.push(b.side);
    out.push(b.ord_type);
    out.push(b.tif);
    out.push(b._pad);
    put_u32(out, b._pad2);
    put_u32(out, b._pad3);
    proof {
        assert(out@ =~= old(out)@ + new_order_bytes(*b));
    }
}

pub(crate) fn put_cancel(out: &mut Vec<u8>, b: &CancelOrderBody)
    ensures
        final(out)@ == old(out)@ + cancel_bytes(*b),
{
    put_u64(out, b.order_id);
    put_u32(out, b.symbol_id);
    put_u32(out, b._pad);
    proof {
        assert(out@ =~= old(out)@ + cancel_bytes(*b));
    }
}

pub(crate) fn put_exec_report(out: &mut Vec<u8>, b: &ExecReportBody)
    ensures
        final(out)@ == old(out)@ + exec_report_bytes(*b),
{
    put_u64(out, b.order_id);
    put_u64(out, b.exec_id);
    put_i64(out, b.last_price);
    put_u64(out, b.last_qty);
    put_u64(out, b.leaves_qty);
    put_u32(out, b.symbol_id);
    out.push(b.status);
    out.push(b.side);
    out.push(b._pad[0]);
    out.push(b._pad[1]);
    proof {
        assert(out@ =~= old(out)@ + exec_report_bytes(*b));
    }
}

// ---------------------------------------------------------------------------
// Parsing
// ---------------------------------------------------------------------------
/// Parse one framed message from the front of `bytes`. Returns the parsed
/// message and the total number of bytes it consumed (header + body).
pub fn parse(bytes: &[u8]) -> (r: Result<(InboundMessage, usize), Error>)
    ensures
        r == parse_spec(bytes@),
{
    let have = bytes.len();
    if have < HEADER_SIZE {
        return Err(Error::ShortBuffer { need: HEADER_SIZE, have });
    }
    let header = read_header(bytes);
    if header.magic != MAGIC {
        return Err(Error::BadMagic { expected: MAGIC, got: header.magic });
    }
    if header.version != VERSION {
        return Err(Error::BadVersion(header.version));
    }
    let body_len = header.length as usize;
    if have - HEADER_SIZE < body_len {
        let need = if body_len <= usize::MAX - HEADER_SIZE {
            HEADER_SIZE + body_len
        } else {
            usize::MAX
        };
        return Err(Error::ShortBuffer { need, have });
    }
    let total = HEADER_SIZE + body_len;
    let body_bytes = slice_subrange(bytes, HEADER_SIZE, total);
    let msg = match MsgType::from_u8(header.msg_type) {
        Err(e) => {
            return Err(e);
        },
        Ok(MsgType::NewOrder) => {
            if body_len != NEW_ORDER_SIZE {
                return Err(Error::LengthMismatch { header: header.length, body: NEW_ORDER_SIZE });
            }
            InboundMessage::NewOrder { header, body: read_new_order(body_bytes) }
        },
        Ok(MsgType::CancelOrder) => {
            if body_len != CANCEL_ORDER_SIZE {
                return Err(
                    Error::LengthMismatch { header: header.length, body: CANCEL_ORDER_SIZE },
                );
            }
            InboundMessage::Cancel { header, body: read_cancel(body_bytes) }
        },
        Ok(MsgType::Heartbeat) => {
            if body_len != 0 {
                return Err(Error::LengthMismatch { header: header.length, body: 0 });
            }
            InboundMessage::Heartbeat { header }
        },
        Ok(MsgType::ExecutionReport) => {
            return Err(Error::UnknownMsgType(header.msg_type));
        },
    };
    Ok((msg, total))
}

// ---------------------------------------------------------------------------
// Encoding
// ---------------------------------------------------------------------------
/// Wall-clock nanoseconds since the Unix epoch, truncated to 64 bits; 0 when
/// the clock reads before the epoch.
fn now_ns() -> u64 {
    let now = system_clock_now();
    match since_epoch(&now) {
        Some(d) => {
            let n = duration_nanos(&d);
            #[verifier::truncate]
            (n as u64)
        },
        None => 0,
    }
}

/// The header of an outbound frame: given sequence number, the current
/// time, protocol magic and version, and the body length.
fn make_header(seq: u64, msg_type: MsgType, body_len: u32) -> (h: Header)
    ensures
        h == frame_header(seq, h.timestamp_ns, msg_type, body_len),
{
    Header {
        seq,
        timestamp_ns: now_ns(),
        magic: MAGIC,
        length: body_len,
        version: VERSION,
        msg_type: msg_type.code(),
        _pad: [0, 0, 0, 0, 0, 0],
    }
}

/// Append a `NewOrder` frame (header + body) to `out`.
pub fn encode_new_order(seq: u64, body: &NewOrderBody, out: &mut Vec<u8>)
    ensures
        exists|ts: u64| final(out)@ == old(out)@ + #[trigger] new_order_frame(seq, ts, *body),
{
    let header = make_header(seq, MsgType::NewOrder, NEW_ORDER_SIZE as u32);
    put_header(out, &header);
    put_new_order(out, body);
    proof {
        assert(out@ =~= old(out)@ + new_order_frame(seq, header.timestamp_ns, *body));
    }
}

/// Append a `CancelOrder` frame (header + body) to `out`.
pub fn encode_cancel(seq: u64, body: &CancelOrderBody, out: &mut Vec<u8>)
    ensures
        exists|ts: u64| final(out)@ == old(out)@ + #[trigger] cancel_frame(seq, ts, *body),
{
    let header = make_header(seq, MsgType::CancelOrder, CANCEL_ORDER_SIZE as u32);
    put_header(out, &header);
    put_cancel(out, body);
    proof {
        assert(out@ =~= old(out)@ + cancel_frame(seq, header.timestamp_ns, *body));
    }
}

/// Append an `ExecutionReport` frame (header + body) to `out`.
pub fn encode_exec_report(seq: u64, body: &ExecReportBody, out: &mut Vec<u8>)
    ensures
        exists|ts: u64| final(out)@ == old(out)@ + #[trigger] exec_report_frame(seq, ts, *body),
{
    let header = make_header(seq, MsgType::ExecutionReport, EXEC_REPORT_SIZE as u32);
    put_header(out, &header);
    put_exec_report(out, body);
    proof {
        assert(out@ =~= old(out)@ + exec_report_frame(seq, header.timestamp_ns, *body));
    }
}

// ---------------------------------------------------------------------------
// Laws
// ---------------------------------------------------------------------------
proof fn lemma_i64_u64_round_trip(x: i64)
    ensures
        (x as u64) as i64 == x,
{
    assert((x as u64) as i64 == x) by (bit_vector);
}

/// A header reads back from its bytes exactly as it was written.
pub proof fn lemma_header_round_trip(h: Header)
    ensures
        header_bytes(h).len() == HEADER_SIZE,
        header_from_bytes(header_bytes(h)) == h,
{
    broadcast use vstd::array::group_array_axioms;

    lemma_auto_spec_u64_to_from_le_bytes();
    lemma_auto_spec_u32_to_from_le_bytes();
    let s = header_bytes(h);
    assert(s.subrange(0, 8) =~= le64(h.seq));
    assert(s.subrange(8, 16) =~= le64(h.timestamp_ns));
    assert(s.subrange(16, 20) =~= le32(h.magic));
    assert(s.subrange(20, 24) =~= le32(h.length));
    let d = header_from_bytes(s);
    assert(d._pad@ =~= h._pad@);
    assert(d._pad == h._pad);
}

/// A new-order body reads back from its bytes exactly as it was written.
pub proof fn lemma_new_order_round_trip(b: NewOrderBody)
    ensures
        new_order_bytes(b).len() == NEW_ORDER_SIZE,
        new_order_from_bytes(new_order_bytes(b)) == b,
{
    lemma_auto_spec_u64_to_from_le_bytes();
    lemma_auto_spec_u32_to_from_le_bytes();
    lemma_i64_u64_round_trip(b.price);
    let s = new_order_bytes(b);
    assert(s.subrange(0, 8) =~= le64(b.price as u64));
    assert(s.subrange(8, 16) =~= le64(b.qty));
    assert(s.subrange(16, 24) =~= le64(b.client_id));
    assert(s.subrange(24, 32) =~= le64(b.order_id));
    assert(s.subrange(32, 36) =~= le32(b.symbol_id));
    assert(s.subrange(40, 44) =~= le32(b._pad2));
    assert(s.subrange(44, 48) =~= le32(b._pad3));
}

/// A cancel body reads back from its bytes exactly as it was written.
pub proof fn lemma_cancel_round_trip(b: CancelOrderBody)
    ensures
        cancel_bytes(b).len() == CANCEL_ORDER_SIZE,
        cancel_from_bytes(cancel_bytes(b)) == b,
{
    lemma_auto_spec_u64_to_from_le_bytes();
    lemma_auto_spec_u32_to_from_le_bytes();
    let s = cancel_bytes(b);
    assert(s.subrange(0, 8) =~= le64(b.order_id));
    assert(s.subrange(8, 12) =~= le32(b.symbol_id));
    assert(s.subrange(12, 16) =~= le32(b._pad));
}

/// An execution-report body reads back from its bytes exactly as it was
/// written.
pub proof fn lemma_exec_report_round_trip(b: ExecReportBody)
    ensures
        exec_report_bytes(b).len() == EXEC_REPORT_SIZE,
        exec_report_from_bytes(exec_report_bytes(b)) == b,
{
    broadcast use vstd::array::group_array_axioms;

    lemma_auto_spec_u64_to_from_le_bytes();
    lemma_auto_spec_u32_to_from_le_bytes();
    lemma_i64_u64_round_trip(b.last_price);
    let s = exec_report_bytes(b);
    assert(s.subrange(0, 8) =~= le64(b.order_id));
    assert(s.subrange(8, 16) =~= le64(b.exec_id));
    assert(s.subrange(16, 24) =~= le64(b.last_price as u64));
    assert(s.subrange(24, 32) =~= le64(b.last_qty));
    assert(s.subrange(32, 40) =~= le64(b.leaves_qty));
    assert(s.subrange(40, 44) =~= le32(b.symbol_id));
    let d = exec_report_from_bytes(s);
    assert(d._pad@ =~= b._pad@);
    assert(d._pad == b._pad);
}

/// Parsing an encoded new-order frame, whatever bytes follow it, yields that
/// order under the header it was sent with and consumes exactly the frame.
pub proof fn lemma_parse_new_order_frame(seq: u64, ts: u64, body: NewOrderBody, rest: Seq<u8>)
    ensures
        parse_spec(new_order_frame(seq, ts, body) + rest) == Ok::<(InboundMessage, usize), Error>(
            (
                InboundMessage::NewOrder {
                    header: frame_header(seq, ts, MsgType::NewOrder, NEW_ORDER_SIZE as u32),
                    body,
                },
                (HEADER_SIZE + NEW_ORDER_SIZE) as usize,
            ),
        ),
{
    let h = frame_header(seq, ts, MsgType::NewOrder, NEW_ORDER_SIZE as u32);
    lemma_header_round_trip(h);
    lemma_new_order_round_trip(body);
    let s = new_order_frame(seq, ts, body) + rest;
    assert(s.subrange(0, HEADER_SIZE as int) =~= header_bytes(h));
    assert(s.subrange(HEADER_SIZE as int, (HEADER_SIZE + NEW_ORDER_SIZE) as int) =~= new_order_bytes(
        body,
    ));
}

/// Parsing an encoded cancel frame, whatever bytes follow it, yields that
/// cancel under the header it was sent with and consumes exactly the frame.
pub proof fn lemma_parse_cancel_frame(seq: u64, ts: u64, body: CancelOrderBody, rest: Seq<u8>)
    ensures
        parse_spec(cancel_frame(seq, ts, body) + rest) == Ok::<(InboundMessage, usize), Error>(
            (
                InboundMessage::Cancel {
                    header: frame_header(seq, ts, MsgType::CancelOrder, CANCEL_ORDER_SIZE as u32),
                    body,
                },
                (HEADER_SIZE + CANCEL_ORDER_SIZE) as usize,
            ),
        ),
{
    let h = frame_header(seq, ts, MsgType::CancelOrder, CANCEL_ORDER_SIZE as u32);
    lemma_header_round_trip(h);
    lemma_cancel_round_trip(body);
    let s = cancel_frame(seq, ts, body) + rest;
    assert(s.subrange(0, HEADER_SIZE as int) =~= header_bytes(h));
    assert(s.subrange(HEADER_SIZE as int, (HEADER_SIZE + CANCEL_ORDER_SIZE) as int)
        =~= cancel_bytes(body));
}

/// Execution reports are outbound only: parsing one is refused as an
/// unknown inbound message type.
pub proof fn lemma_parse_rejects_exec_report_frame(
    seq: u64,
    ts: u64,
    body: ExecReportBody,
    rest: Seq<u8>,
)
    ensures
        parse_spec(exec_report_frame(seq, ts, body) + rest) == Err::<(InboundMessage, usize), Error>(
            Error::UnknownMsgType(MsgType::ExecutionReport.code_spec()),
        ),
{
    let h = frame_header(seq, ts, MsgType::ExecutionReport, EXEC_REPORT_SIZE as u32);
    lemma_header_round_trip(h);
    lemma_exec_report_round_trip(body);
    let s = exec_report_frame(seq, ts, body) + rest;
    assert(s.subrange(0, HEADER_SIZE as int) =~= header_bytes(h));
}

/// `parse` reads only the frame at the front of its input: bytes appended
/// after a complete frame do not change how it parses, and they do not change
/// a refusal other than a short buffer.
pub proof fn lemma_parse_prefix(s: Seq<u8>, t: Seq<u8>)
    ensures
        (parse_spec(s) is Ok || (parse_spec(s) is Err && !(parse_spec(s)->Err_0 is ShortBuffer)))
            ==> parse_spec(s + t) == parse_spec(s),
{
    if s.len() >= HEADER_SIZE {
        assert((s + t).subrange(0, HEADER_SIZE as int) =~= s.subrange(0, HEADER_SIZE as int));
        let header = header_from_bytes(s.subrange(0, HEADER_SIZE as int));
        let total = HEADER_SIZE + header.length;
        if s.len() >= total {
            assert((s + t).subrange(HEADER_SIZE as int, total) =~= s.subrange(
                HEADER_SIZE as int,
                total,
            ));
        }
    }
}

} // verus!
