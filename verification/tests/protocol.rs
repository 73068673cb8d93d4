use trading_server::protocol::{
    encode_cancel, encode_exec_report, encode_new_order, parse, CancelOrderBody, ExecReportBody,
    ExecStatus, Header, InboundMessage, MsgType, NewOrderBody, OrdType, Side, Tif,
    CANCEL_ORDER_SIZE, EXEC_REPORT_SIZE, HEADER_SIZE, MAGIC, NEW_ORDER_SIZE, VERSION,
};
use trading_server::{Error, PRICE_SCALE};

fn sample_new_order() -> NewOrderBody {
    NewOrderBody {
        price: 100 * PRICE_SCALE,
        qty: 500,
        client_id: 99,
        order_id: 42,
        symbol_id: 7,
        side: Side::Buy as u8,
        ord_type: OrdType::Limit as u8,
        tif: Tif::Day as u8,
        _pad: 0,
        _pad2: 0,
        _pad3: 0,
    }
}

#[test]
fn header_size_matches_constant() {
    assert_eq!(std::mem::size_of::<Header>(), HEADER_SIZE);
}

#[test]
fn new_order_round_trip() {
    let body = sample_new_order();
    let mut buf = Vec::with_capacity(128);
    encode_new_order(1, &body, &mut buf);
    let (msg, consumed) = parse(&buf).expect("parse");
    assert_eq!(consumed, HEADER_SIZE + NEW_ORDER_SIZE);
    match msg {
        InboundMessage::NewOrder { body: parsed, .. } => {
            assert_eq!(parsed.order_id, body.order_id);
            assert_eq!(parsed.symbol_id, body.symbol_id);
            assert_eq!(parsed.price, body.price);
            assert_eq!(parsed.qty, body.qty);
            assert_eq!(parsed.client_id, body.client_id);
            assert_eq!(parsed.side, body.side);
        }
        _ => panic!("expected NewOrder"),
    }
}

#[test]
fn rejects_bad_magic() {
    let body = sample_new_order();
    let mut buf = Vec::with_capacity(128);
    encode_new_order(1, &body, &mut buf);
    // `magic` starts at byte 16 of the header.
    buf[16] ^= 0xff;
    assert!(matches!(parse(&buf), Err(Error::BadMagic { .. })));
}

#[test]
fn rejects_short_header() {
    let buf = [0u8; 10];
    assert!(matches!(parse(&buf), Err(Error::ShortBuffer { .. })));
}

#[test]
fn cancel_round_trip() {
    let cancel = CancelOrderBody { order_id: 7, symbol_id: 1, _pad: 0 };
    let mut buf = Vec::with_capacity(64);
    encode_cancel(2, &cancel, &mut buf);
    let (msg, consumed) = parse(&buf).expect("parse");
    assert_eq!(consumed, HEADER_SIZE + CANCEL_ORDER_SIZE);
    match msg {
        InboundMessage::Cancel { body, .. } => {
            assert_eq!(body.order_id, 7);
            assert_eq!(body.symbol_id, 1);
        }
        _ => panic!("expected Cancel"),
    }
}

#[test]
fn encoded_header_carries_sequence_magic_version_and_type() {
    let mut buf = Vec::new();
    encode_new_order(0x0102, &sample_new_order(), &mut buf);
    assert_eq!(buf.len(), HEADER_SIZE + NEW_ORDER_SIZE);
    assert_eq!(&buf[0..8], &0x0102u64.to_le_bytes());
    assert_eq!(&buf[16..20], &MAGIC.to_le_bytes());
    assert_eq!(&buf[20..24], &(NEW_ORDER_SIZE as u32).to_le_bytes());
    assert_eq!(buf[24], VERSION);
    assert_eq!(buf[25], MsgType::NewOrder.code());
    assert_eq!(&buf[32..40], &(100 * PRICE_SCALE).to_le_bytes());
}

#[test]
fn exec_report_frame_is_not_accepted_inbound() {
    let report = ExecReportBody {
        order_id: 1,
        exec_id: 2,
        last_price: 3,
        last_qty: 4,
        leaves_qty: 5,
        symbol_id: 6,
        status: ExecStatus::Filled as u8,
        side: Side::Sell as u8,
        _pad: [0, 0],
    };
    let mut buf = Vec::new();
    encode_exec_report(9, &report, &mut buf);
    assert_eq!(buf.len(), HEADER_SIZE + EXEC_REPORT_SIZE);
    assert!(matches!(parse(&buf), Err(Error::UnknownMsgType(3))));
}

#[test]
fn rejects_bad_version() {
    let mut buf = Vec::new();
    encode_new_order(1, &sample_new_order(), &mut buf);
    buf[24] = 9;
    assert!(matches!(parse(&buf), Err(Error::BadVersion(9))));
}

#[test]
fn rejects_truncated_body() {
    let mut buf = Vec::new();
    encode_new_order(1, &sample_new_order(), &mut buf);
    buf.truncate(HEADER_SIZE + 10);
    match parse(&buf) {
        Err(Error::ShortBuffer { need, have }) => {
            assert_eq!(need, HEADER_SIZE + NEW_ORDER_SIZE);
            assert_eq!(have, HEADER_SIZE + 10);
        }
        other => panic!("expected ShortBuffer, got {other:?}"),
    }
}

#[test]
fn rejects_length_mismatch() {
    let mut buf = Vec::new();
    encode_cancel(1, &CancelOrderBody { order_id: 1, symbol_id: 1, _pad: 0 }, &mut buf);
    // Claim a new-order body while carrying a cancel-sized one.
    buf[25] = MsgType::NewOrder.code();
    assert!(matches!(parse(&buf), Err(Error::LengthMismatch { header: 16, body: 48 })));
}

#[test]
fn heartbeat_parses_with_empty_body() {
    let mut buf = Vec::new();
    encode_cancel(1, &CancelOrderBody { order_id: 1, symbol_id: 1, _pad: 0 }, &mut buf);
    buf.truncate(HEADER_SIZE);
    buf[20..24].copy_from_slice(&0u32.to_le_bytes());
    buf[25] = MsgType::Heartbeat.code();
    let (msg, used) = parse(&buf).expect("heartbeat");
    assert_eq!(used, HEADER_SIZE);
    assert!(matches!(msg, InboundMessage::Heartbeat { .. }));
}

#[test]
fn codes_decode_and_side_flips() {
    assert!(matches!(MsgType::from_u8(1), Ok(MsgType::NewOrder)));
    assert!(matches!(MsgType::from_u8(4), Ok(MsgType::Heartbeat)));
    assert!(matches!(MsgType::from_u8(0), Err(Error::UnknownMsgType(0))));
    assert_eq!(Side::from_u8(1), Some(Side::Sell));
    assert_eq!(Side::from_u8(2), None);
    assert_eq!(OrdType::from_u8(1), Some(OrdType::Market));
    assert_eq!(Tif::from_u8(2), Some(Tif::Fok));
    assert_eq!(Tif::from_u8(3), None);
    assert_eq!(Side::Buy.opposite(), Side::Sell);
    assert_eq!(Side::Sell.opposite(), Side::Buy);
}
