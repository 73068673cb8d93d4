use trading_server::protocol::{
    encode_cancel, encode_exec_report, encode_new_order, CancelOrderBody, ExecReportBody,
    ExecStatus, InboundMessage, MsgType, NewOrderBody, HEADER_SIZE, MAGIC, VERSION,
};
use trading_server::session::{
    accept_report, frame_to_exec_report, is_done, synthetic_header, ws_binary_message,
    CloseReason,
};

fn report(order_id: u64, status: ExecStatus, leaves_qty: u64) -> ExecReportBody {
    ExecReportBody {
        order_id,
        exec_id: 1,
        last_price: 0,
        last_qty: 0,
        leaves_qty,
        symbol_id: 0,
        status: status as u8,
        side: 0,
        _pad: [0, 0],
    }
}

#[test]
fn synthetic_header_has_zero_sequence_and_time() {
    let h = synthetic_header(MsgType::CancelOrder, 16);
    assert_eq!(h.seq, 0);
    assert_eq!(h.timestamp_ns, 0);
    assert_eq!(h.magic, MAGIC);
    assert_eq!(h.version, VERSION);
    assert_eq!(h.length, 16);
    assert_eq!(h.msg_type, 2);
}

#[test]
fn only_exact_report_frames_carry_a_report() {
    let mut frame = Vec::new();
    encode_exec_report(3, &report(9, ExecStatus::New, 5), &mut frame);
    let r = frame_to_exec_report(&frame).expect("report");
    assert_eq!(r.order_id, 9);
    assert_eq!(r.leaves_qty, 5);
    frame.push(0);
    assert!(frame_to_exec_report(&frame).is_none());
    assert!(frame_to_exec_report(&frame[..HEADER_SIZE]).is_none());
}

fn fill(order_id: u64, last_qty: u64, leaves_qty: u64) -> ExecReportBody {
    ExecReportBody {
        last_price: 100,
        last_qty,
        ..report(order_id, ExecStatus::PartiallyFilled, leaves_qty)
    }
}

#[test]
fn partial_fill_ends_the_exchange_only_when_nothing_is_left() {
    assert!(is_done(&report(1, ExecStatus::New, 5)));
    assert!(is_done(&report(1, ExecStatus::Filled, 0)));
    assert!(is_done(&report(1, ExecStatus::Cancelled, 0)));
    assert!(is_done(&report(1, ExecStatus::Rejected, 0)));
    // The report of an order's last fill carries its final status.
    let last_fill = ExecReportBody { status: ExecStatus::Filled as u8, ..fill(1, 2, 0) };
    assert!(is_done(&last_fill));
    // A partial fill is followed by more of the order's reports; the report
    // that closes a partly filled order carries no fill.
    assert!(!is_done(&fill(1, 2, 3)));
    assert!(!is_done(&fill(1, 3, 0)));
    assert!(is_done(&report(1, ExecStatus::PartiallyFilled, 3)));
    assert!(is_done(&report(1, ExecStatus::PartiallyFilled, 0)));
    // A status the protocol does not know ends nothing.
    let unknown = ExecReportBody { status: 9, ..report(1, ExecStatus::New, 0) };
    assert!(!is_done(&unknown));
}

#[test]
fn unary_call_keeps_only_its_own_reports() {
    let mut frame = Vec::new();
    encode_exec_report(1, &fill(9, 5, 0), &mut frame);
    assert!(accept_report(&frame, 8).is_none());
    let (r, done) = accept_report(&frame, 9).expect("own report");
    assert_eq!(r.order_id, 9);
    assert_eq!(r.last_qty, 5);
    assert!(!done);

    let mut end = Vec::new();
    encode_exec_report(2, &report(9, ExecStatus::Filled, 0), &mut end);
    let (r, done) = accept_report(&end, 9).expect("terminal report");
    assert_eq!(r.status, ExecStatus::Filled as u8);
    assert!(done);
}

#[test]
fn websocket_messages_hold_exactly_one_frame() {
    let body = NewOrderBody {
        price: 1,
        qty: 1,
        client_id: 1,
        order_id: 1,
        symbol_id: 0,
        side: 0,
        ord_type: 0,
        tif: 0,
        _pad: 0,
        _pad2: 0,
        _pad3: 0,
    };
    let mut one = Vec::new();
    encode_new_order(1, &body, &mut one);
    assert!(matches!(ws_binary_message(&one), Ok(InboundMessage::NewOrder { .. })));

    let mut two = one.clone();
    encode_cancel(2, &CancelOrderBody { order_id: 1, symbol_id: 0, _pad: 0 }, &mut two);
    assert_eq!(ws_binary_message(&two).unwrap_err(), CloseReason::MultipleFrames);

    assert_eq!(ws_binary_message(&one[..10]).unwrap_err(), CloseReason::ShortFrame);
    let mut bad = one.clone();
    bad[16] ^= 0xff;
    assert_eq!(ws_binary_message(&bad).unwrap_err(), CloseReason::Malformed);
    let truncated = &one[..HEADER_SIZE + 4];
    assert_eq!(ws_binary_message(truncated).unwrap_err(), CloseReason::Malformed);
}

#[test]
fn close_reasons_carry_their_codes_and_texts() {
    assert_eq!(CloseReason::ShortFrame.code(), 1007);
    assert_eq!(CloseReason::Malformed.code(), 1007);
    assert_eq!(CloseReason::MultipleFrames.code(), 1003);
    assert_eq!(CloseReason::TextUnsupported.code(), 1003);
    assert_eq!(CloseReason::EngineUnavailable.code(), 1013);
    assert_eq!(CloseReason::MultipleFrames.text(), "multiple frames per WS message");
    assert_eq!(CloseReason::Malformed.text(), "malformed QFTX frame");
}
