use sonyctl::frame::{next_message, take_frame};
use sonyctl::protocol::{build_ack, build_packet, DataType};

#[test]
fn take_frame_cuts_first_frame() {
    let mut buf = vec![0x00, 0x3E, 0x01, 0x02, 0x3C, 0x3E, 0x09];
    let f = take_frame(&mut buf);
    assert_eq!(f, Some(vec![0x01, 0x02]));
    assert_eq!(buf, vec![0x3E, 0x09]);
    // Incomplete frame: nothing taken, buffer kept
    assert_eq!(take_frame(&mut buf), None);
    assert_eq!(buf, vec![0x3E, 0x09]);
}

#[test]
fn take_frame_end_before_start_is_skipped() {
    let mut buf = vec![0x3C, 0x3E, 0x05, 0x3C];
    assert_eq!(take_frame(&mut buf), Some(vec![0x05]));
    assert!(buf.is_empty());
}

#[test]
fn next_message_recovers_built_packet() {
    let mut buf = vec![0x11, 0x22];
    buf.extend(build_packet(DataType::DataMdr, 1, &[0x23, 0x00, 0x50]));
    buf.extend([0x3E, 0x0C]);
    let m = next_message(&mut buf).expect("message");
    assert_eq!(m.data_type, DataType::DataMdr);
    assert_eq!(m.seq, 1);
    assert_eq!(m.payload, vec![0x23, 0x00, 0x50]);
    assert_eq!(buf, vec![0x3E, 0x0C]);
    assert!(next_message(&mut buf).is_none());
}

#[test]
fn next_message_drops_corrupt_frames() {
    let mut bad = build_packet(DataType::DataMdr, 0, &[0x01]);
    let n = bad.len();
    bad[n - 2] ^= 0x01; // damage the checksum
    let mut buf = bad.clone();
    buf.extend(build_ack(0));
    let m = next_message(&mut buf).expect("ack");
    assert_eq!(m.data_type, DataType::Ack);
    assert_eq!(m.seq, 1);
    assert!(buf.is_empty());
}

#[test]
fn next_message_empty_buffer() {
    let mut buf: Vec<u8> = Vec::new();
    assert!(next_message(&mut buf).is_none());
    assert!(buf.is_empty());
}
