use sonyctl::protocol::{
    build_ack, build_packet, checksum, escape, parse_packet, unescape, DataType, END_MARKER,
    START_MARKER,
};

#[test]
fn escape_unescape_roundtrip() {
    // All three special bytes present
    let data = vec![0x00, 0x3C, 0xFF, 0x3D, 0x42, 0x3E, 0x01];
    assert_eq!(unescape(&escape(&data)), data);
}

#[test]
fn escape_unescape_no_special() {
    let data = vec![0x00, 0x01, 0x02, 0xFF];
    let escaped = escape(&data);
    assert_eq!(escaped, data); // nothing to escape
    assert_eq!(unescape(&escaped), data);
}

#[test]
fn escape_all_special() {
    let data = vec![0x3C, 0x3D, 0x3E];
    let escaped = escape(&data);
    assert_eq!(escaped, vec![0x3D, 0x2C, 0x3D, 0x2D, 0x3D, 0x2E]);
    assert_eq!(unescape(&escaped), data);
}

#[test]
fn escape_empty() {
    assert_eq!(escape(&[]), Vec::<u8>::new());
    assert_eq!(unescape(&[]), Vec::<u8>::new());
}

#[test]
fn checksum_basic() {
    assert_eq!(checksum(&[]), 0);
    assert_eq!(checksum(&[0x10, 0x20, 0x30]), 0x60);
    // Wrapping: 0xFF + 0x02 = 0x01
    assert_eq!(checksum(&[0xFF, 0x02]), 0x01);
}

#[test]
fn build_parse_roundtrip() {
    let payload = vec![0x22, 0x00]; // e.g. get_battery
    let pkt = build_packet(DataType::DataMdr, 0, &payload);

    // Packet must be framed with START/END markers
    assert_eq!(pkt[0], START_MARKER);
    assert_eq!(*pkt.last().unwrap(), END_MARKER);

    // Extract and parse inner content
    let inner = unescape(&pkt[1..pkt.len() - 1]);
    let msg = parse_packet(&inner).expect("should parse");
    assert_eq!(msg.data_type, DataType::DataMdr);
    assert_eq!(msg.seq, 0);
    assert_eq!(msg.payload, payload);
}

#[test]
fn build_parse_roundtrip_with_escaping() {
    // Payload containing bytes that need escaping
    let payload = vec![0x3C, 0x3D, 0x3E, 0x00, 0xFF];
    let pkt = build_packet(DataType::DataMdrNo2, 1, &payload);

    let inner = unescape(&pkt[1..pkt.len() - 1]);
    let msg = parse_packet(&inner).expect("should parse");
    assert_eq!(msg.data_type, DataType::DataMdrNo2);
    assert_eq!(msg.seq, 1);
    assert_eq!(msg.payload, payload);
}

#[test]
fn build_parse_empty_payload() {
    let pkt = build_packet(DataType::Ack, 0, &[]);
    let inner = unescape(&pkt[1..pkt.len() - 1]);
    let msg = parse_packet(&inner).expect("should parse");
    assert_eq!(msg.data_type, DataType::Ack);
    assert_eq!(msg.payload, Vec::<u8>::new());
}

#[test]
fn parse_rejects_bad_checksum() {
    let pkt = build_packet(DataType::DataMdr, 0, &[0x22, 0x00]);
    let mut inner = unescape(&pkt[1..pkt.len() - 1]);
    // Corrupt the checksum (last byte)
    *inner.last_mut().unwrap() ^= 0xFF;
    assert!(parse_packet(&inner).is_none());
}

#[test]
fn parse_rejects_truncated() {
    assert!(parse_packet(&[]).is_none());
    assert!(parse_packet(&[0x0C, 0x00, 0x00]).is_none());
}

#[test]
fn parse_rejects_unknown_data_type() {
    // Valid structure but unknown data_type byte
    let mut raw = vec![0xFF, 0x00, 0x00, 0x00, 0x00, 0x01, 0x42];
    raw.push(checksum(&raw));
    assert!(parse_packet(&raw).is_none());
}

#[test]
fn build_ack_toggles_seq() {
    let ack0 = build_ack(0);
    let inner0 = unescape(&ack0[1..ack0.len() - 1]);
    let msg0 = parse_packet(&inner0).unwrap();
    assert_eq!(msg0.seq, 1); // device sent 0, we ACK with 1

    let ack1 = build_ack(1);
    let inner1 = unescape(&ack1[1..ack1.len() - 1]);
    let msg1 = parse_packet(&inner1).unwrap();
    assert_eq!(msg1.seq, 0); // device sent 1, we ACK with 0
}

#[test]
fn data_type_from_u8() {
    assert_eq!(DataType::from_u8(1), Some(DataType::Ack));
    assert_eq!(DataType::from_u8(12), Some(DataType::DataMdr));
    assert_eq!(DataType::from_u8(14), Some(DataType::DataMdrNo2));
    assert_eq!(DataType::from_u8(0), None);
    assert_eq!(DataType::from_u8(255), None);
}

// ── Further cases ───────────────────────────────────────────────────────

#[test]
fn data_type_code_roundtrip() {
    for dt in [DataType::Ack, DataType::DataMdr, DataType::DataMdrNo2] {
        assert_eq!(DataType::from_u8(dt.code()), Some(dt));
    }
    assert_eq!(DataType::Ack.code(), 1);
    assert_eq!(DataType::DataMdr.code(), 12);
    assert_eq!(DataType::DataMdrNo2.code(), 14);
}

#[test]
fn build_packet_exact_bytes() {
    // [0x3E] [0x0C 0x00 0x00 0x00 0x00 0x02 0x22 0x00 chk] [0x3C]
    let pkt = build_packet(DataType::DataMdr, 0, &[0x22, 0x00]);
    let chk = (0x0Cu32 + 0x02 + 0x22) as u8;
    assert_eq!(pkt, vec![0x3E, 0x0C, 0x00, 0x00, 0x00, 0x00, 0x02, 0x22, 0x00, chk, 0x3C]);
}

#[test]
fn build_ack_exact_bytes() {
    // Ack for device seq 0: dt=1, seq=1, size 0, checksum 2
    assert_eq!(build_ack(0), vec![0x3E, 0x01, 0x01, 0x00, 0x00, 0x00, 0x00, 0x02, 0x3C]);
}

#[test]
fn escaped_packet_has_no_inner_markers() {
    let payload: Vec<u8> = (0u8..=255).collect();
    let pkt = build_packet(DataType::DataMdr, 1, &payload);
    let inner = &pkt[1..pkt.len() - 1];
    assert!(inner.iter().all(|&b| b != START_MARKER && b != END_MARKER));
    let msg = parse_packet(&unescape(inner)).unwrap();
    assert_eq!(msg.payload, payload);
}

#[test]
fn unescape_trailing_escape_byte_kept() {
    assert_eq!(unescape(&[0x01, 0x3D]), vec![0x01, 0x3D]);
    // An escape pair with an unknown second byte gives that byte.
    assert_eq!(unescape(&[0x3D, 0x41]), vec![0x41]);
}

#[test]
fn parse_rejects_short_for_announced_size() {
    // size 2 announced, only 1 payload byte and a checksum
    let raw = vec![0x0C, 0x00, 0x00, 0x00, 0x00, 0x02, 0x22, 0x30];
    assert!(parse_packet(&raw).is_none());
}

#[test]
fn parse_ignores_trailing_bytes() {
    let mut raw = vec![0x0C, 0x01, 0x00, 0x00, 0x00, 0x01, 0x42];
    raw.push(checksum(&raw));
    raw.push(0x99);
    let msg = parse_packet(&raw).unwrap();
    assert_eq!(msg.seq, 1);
    assert_eq!(msg.payload, vec![0x42]);
}
