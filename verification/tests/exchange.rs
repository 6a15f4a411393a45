use sonyctl::exchange::{acknowledge, Exchange};
use sonyctl::protocol::{build_ack, DataType, Message};

fn msg(dt: DataType, seq: u8, payload: &[u8]) -> Message {
    Message { data_type: dt, seq, payload: payload.to_vec() }
}

#[test]
fn device_ack_sets_next_seq() {
    let mut seq = 0u8;
    let ack = acknowledge(&mut seq, &msg(DataType::Ack, 1, &[]));
    assert!(ack.is_none());
    assert_eq!(seq, 1);
}

#[test]
fn device_message_is_acknowledged_with_toggled_seq() {
    let mut seq = 1u8;
    let ack = acknowledge(&mut seq, &msg(DataType::DataMdr, 0, &[0x23]));
    assert_eq!(ack, Some(build_ack(0)));
    assert_eq!(seq, 1);
}

#[test]
fn exchange_collects_until_expected() {
    let mut seq = 0u8;
    let mut ex = Exchange::new(Some(0x23));
    assert!(ex.on_message(&mut seq, msg(DataType::Ack, 1, &[])).is_none());
    assert_eq!(seq, 1);
    assert!(!ex.done);
    let a = ex.on_message(&mut seq, msg(DataType::DataMdr, 0, &[0x11, 0x00]));
    assert_eq!(a, Some(build_ack(0)));
    assert!(!ex.done);
    // empty payloads are acknowledged but not collected
    let b = ex.on_message(&mut seq, msg(DataType::DataMdrNo2, 1, &[]));
    assert_eq!(b, Some(build_ack(1)));
    assert!(!ex.done);
    ex.on_message(&mut seq, msg(DataType::DataMdr, 1, &[0x23, 0x00, 0x40]));
    assert!(ex.done);
    assert_eq!(ex.results, vec![vec![0x11, 0x00], vec![0x23, 0x00, 0x40]]);
    assert_eq!(seq, 1);
}

#[test]
fn exchange_without_expectation_never_done() {
    let mut seq = 0u8;
    let mut ex = Exchange::new(None);
    ex.on_message(&mut seq, msg(DataType::DataMdr, 0, &[0x37, 0x00]));
    assert!(!ex.done);
    assert_eq!(ex.results.len(), 1);
}
