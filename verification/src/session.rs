//! Decisions shared by the stream transports (gRPC and WebSocket) that sit
//! beside the TCP server: the placeholder header of the orders they submit,
//! reading back the execution reports the dispatcher frames for them, and
//! judging each inbound WebSocket message.

use vstd::prelude::*;
use vstd::slice::slice_subrange;

use crate::protocol::{
    exec_report_from_bytes, frame_header, parse, parse_spec, read_exec_report, ExecReportBody,
    ExecStatus, Header, InboundMessage, MsgType, EXEC_REPORT_SIZE, HEADER_SIZE,
};
use crate::text::{split_commas, split_on_commas, str_eq, trim, trim_spec};
use crate::OrderId;

verus! {

/// The header put on orders that arrive over gRPC or WebSocket: sequence
/// number and timestamp zero, the protocol magic and version, the message
/// type and the body length. The engine reads only the body.
pub fn synthetic_header(msg_type: MsgType, body_len: u32) -> (h: Header)
    ensures
        h == frame_header(0, 0, msg_type, body_len),
{
    Header {
        seq: 0,
        timestamp_ns: 0,
        magic: crate::protocol::MAGIC,
        length: body_len,
        version: crate::protocol::VERSION,
        msg_type: msg_type.code(),
        _pad: [0, 0, 0, 0, 0, 0],
    }
}

/// The report carried by an outbound frame: a frame of exactly one header
/// and one report body, read after the header. Any other length carries
/// none.
pub open spec fn frame_report(bytes: Seq<u8>) -> Option<ExecReportBody> {
    if bytes.len() == HEADER_SIZE + EXEC_REPORT_SIZE {
        Some(exec_report_from_bytes(bytes.subrange(HEADER_SIZE as int, bytes.len() as int)))
    } else {
        None
    }
}

/// Read the report out of a frame the dispatcher produced.
pub fn frame_to_exec_report(bytes: &[u8]) -> (r: Option<ExecReportBody>)
    ensures
        r == frame_report(bytes@),
{
    if bytes.len() != HEADER_SIZE + EXEC_REPORT_SIZE {
        return None;
    }
    let body = slice_subrange(bytes, HEADER_SIZE, bytes.len());
    Some(read_exec_report(body))
}

/// Whether a report ends the exchange for its order. New, filled,
/// cancelled and rejected are final. A partially filled report is final
/// only when it carries no fill of its own: the engine marks every fill
/// but the last as partially filled, and closes an order that is not
/// wholly filled with a report that carries no fill. A status the
/// protocol does not know is not final.
pub open spec fn done_spec(report: ExecReportBody) -> bool {
    if report.status == ExecStatus::PartiallyFilled.code_spec() {
        report.last_qty == 0
    } else {
        report.status == ExecStatus::New.code_spec() || report.status == ExecStatus::Filled.code_spec()
            || report.status == ExecStatus::Cancelled.code_spec() || report.status
            == ExecStatus::Rejected.code_spec()
    }
}

pub fn is_done(report: &ExecReportBody) -> (r: bool)
    ensures
        r == done_spec(*report),
{
    let st = report.status;
    if st == ExecStatus::PartiallyFilled.code() {
        report.last_qty == 0
    } else {
        st == ExecStatus::New.code() || st == ExecStatus::Filled.code() || st
            == ExecStatus::Cancelled.code() || st == ExecStatus::Rejected.code()
    }
}

/// What a unary order call does with one frame it receives: the report, if
/// the frame carries one for `order_id`, and whether it is the last.
pub fn accept_report(bytes: &[u8], order_id: OrderId) -> (r: Option<(ExecReportBody, bool)>)
    ensures
        r == (match frame_report(bytes@) {
            Some(b) => if b.order_id == order_id {
                Some((b, done_spec(b)))
            } else {
                None
            },
            None => None,
        }),
{
    match frame_to_exec_report(bytes) {
        Some(b) => if b.order_id == order_id {
            let done = is_done(&b);
            Some((b, done))
        } else {
            None
        },
        None => None,
    }
}

/// Why a WebSocket session is closed by the server.
#[derive(Debug, Clone, Copy, PartialEq, Eq, Structural)]
pub enum CloseReason {
    /// A binary message shorter than a frame header.
    ShortFrame,
    /// A binary message holding more than one frame.
    MultipleFrames,
    /// A binary message that does not parse as a frame.
    Malformed,
    /// A text message; only binary frames are accepted.
    TextUnsupported,
    /// The engine no longer takes orders.
    EngineUnavailable,
}

impl CloseReason {
    /// The WebSocket close code sent for this reason.
    pub open spec fn code_spec(self) -> u16 {
        match self {
            CloseReason::ShortFrame => 1007,
            CloseReason::MultipleFrames => 1003,
            CloseReason::Malformed => 1007,
            CloseReason::TextUnsupported => 1003,
            CloseReason::EngineUnavailable => 1013,
        }
    }

    pub fn code(self) -> (c: u16)
        ensures
            c == self.code_spec(),
    {
        match self {
            CloseReason::ShortFrame => 1007,
            CloseReason::MultipleFrames => 1003,
            CloseReason::Malformed => 1007,
            CloseReason::TextUnsupported => 1003,
            CloseReason::EngineUnavailable => 1013,
        }
    }

    /// The text sent with the close code.
    pub open spec fn text_spec(self) -> Seq<char> {
        match self {
            CloseReason::ShortFrame => "frame shorter than header"@,
            CloseReason::MultipleFrames => "multiple frames per WS message"@,
            CloseReason::Malformed => "malformed QFTX frame"@,
            CloseReason::TextUnsupported => "text frames not supported"@,
            CloseReason::EngineUnavailable => "engine unavailable"@,
        }
    }

    pub fn text(self) -> (s: &'static str)
        ensures
            s@ == self.text_spec(),
    {
        match self {
            CloseReason::ShortFrame => "frame shorter than header",
            CloseReason::MultipleFrames => "multiple frames per WS message",
            CloseReason::Malformed => "malformed QFTX frame",
            CloseReason::TextUnsupported => "text frames not supported",
            CloseReason::EngineUnavailable => "engine unavailable",
        }
    }
}

/// What a binary WebSocket message gives: the one frame it must hold, or
/// the reason to close the session.
pub open spec fn ws_binary_spec(bytes: Seq<u8>) -> Result<InboundMessage, CloseReason> {
    if bytes.len() < HEADER_SIZE {
        Err(CloseReason::ShortFrame)
    } else {
        match parse_spec(bytes) {
            Ok((msg, used)) => if used == bytes.len() {
                Ok(msg)
            } else {
                Err(CloseReason::MultipleFrames)
            },
            Err(_) => Err(CloseReason::Malformed),
        }
    }
}

pub fn ws_binary_message(bytes: &[u8]) -> (r: Result<InboundMessage, CloseReason>)
    ensures
        r == ws_binary_spec(bytes@),
{
    if bytes.len() < HEADER_SIZE {
        return Err(CloseReason::ShortFrame);
    }
    match parse(bytes) {
        Ok((msg, used)) => if used == bytes.len() {
            Ok(msg)
        } else {
            Err(CloseReason::MultipleFrames)
        },
        Err(_) => Err(CloseReason::Malformed),
    }
}

/// The WebSocket subprotocol of the binary frame format.
pub const SUBPROTOCOL: &'static str = "qftx-binary.v1";

/// Whether a piece of a protocol header names the subprotocol.
pub open spec fn names_subprotocol(piece: Seq<char>) -> bool {
    trim_spec(piece) == SUBPROTOCOL@
}

/// Whether a client offered the subprotocol: one of the values of its
/// protocol header lists it among its comma-separated entries.
pub open spec fn offers_spec(values: Seq<Seq<char>>) -> bool {
    exists|i: int, j: int|
        0 <= i < values.len() && 0 <= j < split_commas(values[i]).len() && #[trigger] names_subprotocol(
            split_commas(values[i])[j],
        )
}

fn value_offers(value: &str) -> (r: bool)
    ensures
        r == exists|j: int|
            0 <= j < split_commas(value@).len() && #[trigger] names_subprotocol(split_commas(value@)[j]),
{
    let pieces = split_on_commas(value);
    let mut j: usize = 0;
    while j < pieces.len()
        invariant
            j <= pieces@.len(),
            pieces@.len() == split_commas(value@).len(),
            forall|k: int| 0 <= k < pieces@.len() ==> #[trigger] pieces@[k]@ == split_commas(value@)[k],
            forall|k: int| 0 <= k < j ==> !#[trigger] names_subprotocol(split_commas(value@)[k]),
        decreases pieces@.len() - j,
    {
        let t = trim(pieces[j].as_str());
        if str_eq(t, SUBPROTOCOL) {
            proof {
                assert(names_subprotocol(split_commas(value@)[j as int]));
            }
            return true;
        }
        j = j + 1;
    }
    false
}

/// Whether the client's protocol header values offer the subprotocol,
/// which the server then confirms in its handshake answer.
pub fn offers_subprotocol(values: &Vec<String>) -> (r: bool)
    ensures
        r == offers_spec(values@.map_values(|v: String| v@)),
{
    let ghost vs = values@.map_values(|v: String| v@);
    let mut i: usize = 0;
    while i < values.len()
        invariant
            i <= values@.len(),
            vs == values@.map_values(|v: String| v@),
            forall|a: int, j: int|
                0 <= a < i && 0 <= j < split_commas(vs[a]).len() ==> !#[trigger] names_subprotocol(
                    split_commas(vs[a])[j],
                ),
        decreases values@.len() - i,
    {
        if value_offers(values[i].as_str()) {
            proof {
                let j = choose|j: int|
                    0 <= j < split_commas(values@[i as int]@).len() && #[trigger] names_subprotocol(
                        split_commas(values@[i as int]@)[j],
                    );
                assert(vs[i as int] == values@[i as int]@);
                assert(names_subprotocol(split_commas(vs[i as int])[j]));
            }
            return true;
        }
        proof {
            assert(vs[i as int] == values@[i as int]@);
        }
        i = i + 1;
    }
    false
}

} // verus!
