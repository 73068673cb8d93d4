use trading_server::engine::OutboundExec;
use trading_server::protocol::{
    encode_cancel, encode_new_order, CancelOrderBody, ExecReportBody, ExecStatus,
    InboundMessage, MsgType, NewOrderBody, Side, EXEC_REPORT_SIZE, HEADER_SIZE,
};
use trading_server::server::{dispatch, drain_frames, ConnIdAllocator, FrameReader, READ_BUF_CAP};
use trading_server::session::frame_to_exec_report;

fn order(id: u64) -> NewOrderBody {
    NewOrderBody {
        price: 100,
        qty: 1,
        client_id: 1,
        order_id: id,
        symbol_id: 0,
        side: 0,
        ord_type: 0,
        tif: 0,
        _pad: 0,
        _pad2: 0,
        _pad3: 0,
    }
}

fn two_frames() -> Vec<u8> {
    let mut buf = Vec::new();
    encode_new_order(1, &order(11), &mut buf);
    encode_cancel(2, &CancelOrderBody { order_id: 11, symbol_id: 0, _pad: 0 }, &mut buf);
    buf
}

#[test]
fn drain_reads_every_complete_frame_and_keeps_the_rest() {
    let mut buf = two_frames();
    let full = buf.len();
    buf.extend_from_slice(&[0x51, 0x46]);
    let (msgs, used, fatal) = drain_frames(&buf);
    assert_eq!(msgs.len(), 2);
    assert!(matches!(msgs[0], InboundMessage::NewOrder { body, .. } if body.order_id == 11));
    assert!(matches!(msgs[1], InboundMessage::Cancel { body, .. } if body.order_id == 11));
    assert_eq!(used, full);
    assert!(!fatal);
}

#[test]
fn drain_stops_at_a_malformed_frame() {
    let mut buf = Vec::new();
    encode_new_order(1, &order(1), &mut buf);
    let mut bad = Vec::new();
    encode_new_order(2, &order(2), &mut bad);
    bad[16] ^= 0xff;
    buf.extend_from_slice(&bad);
    let (msgs, used, fatal) = drain_frames(&buf);
    assert_eq!(msgs.len(), 1);
    assert_eq!(used, HEADER_SIZE + 48);
    assert!(fatal);
}

#[test]
fn reader_reassembles_frames_split_across_reads() {
    let bytes = two_frames();
    let mut r = FrameReader::new();
    assert_eq!(r.free_space(), READ_BUF_CAP);
    let (m1, f1) = r.feed(&bytes[..50]);
    assert!(m1.is_empty() && !f1);
    assert_eq!(r.free_space(), READ_BUF_CAP - 50);
    let (m2, f2) = r.feed(&bytes[50..]);
    assert_eq!(m2.len(), 2);
    assert!(!f2);
    assert_eq!(r.free_space(), READ_BUF_CAP);
    assert!(!r.make_room());
}

#[test]
fn full_buffer_without_a_frame_is_dropped() {
    let mut r = FrameReader::new();
    // A header announcing a body far larger than the buffer.
    let mut bytes = Vec::new();
    encode_new_order(1, &order(1), &mut bytes);
    bytes.truncate(HEADER_SIZE);
    bytes[20..24].copy_from_slice(&(READ_BUF_CAP as u32).to_le_bytes());
    bytes.resize(READ_BUF_CAP, 0);
    let (msgs, fatal) = r.feed(&bytes);
    assert!(msgs.is_empty() && !fatal);
    assert_eq!(r.free_space(), 0);
    assert!(r.make_room());
    assert_eq!(r.free_space(), READ_BUF_CAP);
}

#[test]
fn any_split_of_the_stream_reads_the_same_messages() {
    let mut bytes = two_frames();
    encode_new_order(3, &order(12), &mut bytes);
    let (whole, _, _) = drain_frames(&bytes);
    for size in [1usize, 3, 7, 40, 64, 1000] {
        let mut r = FrameReader::new();
        let mut got = Vec::new();
        for chunk in bytes.chunks(size) {
            let (msgs, fatal) = r.feed(chunk);
            assert!(!fatal);
            got.extend(msgs);
        }
        assert_eq!(format!("{got:?}"), format!("{whole:?}"), "chunks of {size}");
        assert_eq!(got.len(), 3);
        assert_eq!(r.free_space(), READ_BUF_CAP);
    }
}

#[test]
fn a_thousand_connection_ids_are_one_to_a_thousand() {
    let mut a = ConnIdAllocator::new();
    for k in 1..=1000u64 {
        assert_eq!(a.allocate(), k);
    }
}

#[test]
fn connection_ids_start_at_one_and_increase() {
    let mut a = ConnIdAllocator::new();
    assert_eq!(a.allocate(), 1);
    assert_eq!(a.allocate(), 2);
    assert_eq!(a.allocate(), 3);
}

#[test]
fn dispatch_frames_reports_and_skips_connection_zero() {
    let body = ExecReportBody {
        order_id: 4,
        exec_id: 5,
        last_price: 6,
        last_qty: 7,
        leaves_qty: 8,
        symbol_id: 9,
        status: ExecStatus::Filled as u8,
        side: Side::Buy as u8,
        _pad: [0, 0],
    };
    let (seq, out) = dispatch(u64::MAX, &OutboundExec { conn_id: 0, body });
    assert_eq!(seq, 0);
    assert!(out.is_none());
    let (seq, out) = dispatch(seq, &OutboundExec { conn_id: 3, body });
    assert_eq!(seq, 1);
    let (conn, frame) = out.expect("frame");
    assert_eq!(conn, 3);
    assert_eq!(frame.len(), HEADER_SIZE + EXEC_REPORT_SIZE);
    assert_eq!(&frame[0..8], &1u64.to_le_bytes());
    assert_eq!(frame[25], MsgType::ExecutionReport.code());
    let back = frame_to_exec_report(&frame).expect("report");
    assert_eq!(back.order_id, 4);
    assert_eq!(back.leaves_qty, 8);
    assert_eq!(back.status, ExecStatus::Filled as u8);
}
