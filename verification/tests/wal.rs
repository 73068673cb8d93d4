use trading_server::protocol::{CancelOrderBody, NewOrderBody, OrdType, Side, Tif};
use trading_server::wal::{
    decode_records, encode_frame, flush_due, frames_well_formed, WalRecord, FLUSH_BYTES,
    FLUSH_INTERVAL_NS, RECORD_CANCEL, RECORD_NEW_ORDER,
};

fn sample_order(id: u64) -> NewOrderBody {
    NewOrderBody {
        price: 100,
        qty: 10,
        client_id: 1,
        order_id: id,
        symbol_id: 1,
        side: Side::Buy as u8,
        ord_type: OrdType::Limit as u8,
        tif: Tif::Day as u8,
        _pad: 0,
        _pad2: 0,
        _pad3: 0,
    }
}

fn payload_of(r: &WalRecord) -> Vec<u8> {
    let mut v = Vec::new();
    r.payload_bytes(&mut v);
    v
}

#[test]
fn wal_roundtrip_writes_and_reads_back_byte_equal() {
    // The journal's bytes, as the writer thread appends them to the file.
    let mut log = Vec::new();
    for i in 0..100 {
        encode_frame(&WalRecord::new_order(sample_order(i)), &mut log);
    }
    assert!(frames_well_formed(&log));
    let records = decode_records(&log);
    assert_eq!(records.len(), 100);
    for (i, r) in records.iter().enumerate() {
        assert_eq!(r.record_type, RECORD_NEW_ORDER);
        let expected = WalRecord::new_order(sample_order(i as u64));
        assert_eq!(r.payload, payload_of(&expected));
    }
}

#[test]
fn frame_layout_is_length_crc_type_payload() {
    let rec = WalRecord::cancel(CancelOrderBody { order_id: 5, symbol_id: 2, _pad: 0 });
    let mut out = vec![0xaa];
    encode_frame(&rec, &mut out);
    assert_eq!(out[0], 0xaa);
    let frame = &out[1..];
    assert_eq!(frame.len(), 4 + 4 + 1 + 16);
    assert_eq!(&frame[0..4], &21u32.to_le_bytes());
    let mut body = vec![RECORD_CANCEL];
    body.extend_from_slice(&payload_of(&rec));
    assert_eq!(&frame[4..8], &crc32fast::hash(&body).to_le_bytes());
    assert_eq!(&frame[8..], &body[..]);
    assert_eq!(rec.record_type(), RECORD_CANCEL);
}

#[test]
fn torn_tail_is_ignored_on_read() {
    let mut log = Vec::new();
    encode_frame(&WalRecord::new_order(sample_order(1)), &mut log);
    encode_frame(&WalRecord::new_order(sample_order(2)), &mut log);
    log.truncate(log.len() - 3);
    assert!(frames_well_formed(&log));
    let records = decode_records(&log);
    assert_eq!(records.len(), 1);
    assert_eq!(records[0].payload, payload_of(&WalRecord::new_order(sample_order(1))));
}

#[test]
fn frame_shorter_than_its_header_is_not_well_formed() {
    // A length field of 2 cannot hold a checksum and a type byte.
    let log = vec![2, 0, 0, 0, 1, 2];
    assert!(!frames_well_formed(&log));
}

#[test]
fn flush_is_due_by_size_or_by_time() {
    assert!(!flush_due(FLUSH_BYTES - 1, FLUSH_INTERVAL_NS - 1));
    assert!(flush_due(FLUSH_BYTES, 0));
    assert!(flush_due(0, FLUSH_INTERVAL_NS));
}
