use sonyctl::headphones::{AncMode, AncStatus, PlaybackAction};
use sonyctl::protocol::DataType;
use sonyctl::requests::{
    ambient_request, anc_request, battery_request, devices_request, init2_request,
    set_auto_off_request, set_eq_request, set_multipoint_request, set_speak_to_chat_request,
    set_volume_request, playback_request, anc_next_step, AncStep, InvalidAutoOff, ANC_SUBTYPES,
};

#[test]
fn simple_queries() {
    let r = battery_request();
    assert_eq!(r.data_type, DataType::DataMdr);
    assert_eq!(r.payload, vec![0x22, 0x00]);
    assert_eq!(r.expect, Some(0x23));
    assert_eq!(r.timeout_ms, 3000);
    assert_eq!(anc_request(ANC_SUBTYPES[0]).payload, vec![0x66, 0x19]);
    assert_eq!(ANC_SUBTYPES, [0x19, 0x17]);
    let i2 = init2_request();
    assert_eq!(i2.data_type, DataType::DataMdrNo2);
    assert_eq!(i2.timeout_ms, 2000);
    let d = devices_request();
    assert_eq!(d.expect, None);
    assert_eq!(d.timeout_ms, 5000);
}

#[test]
fn ambient_level_clamped() {
    assert_eq!(ambient_request(0, false).payload, vec![0x68, 0x17, 0x01, 0x01, 0x01, 0x00, 1]);
    assert_eq!(ambient_request(25, true).payload, vec![0x68, 0x17, 0x01, 0x01, 0x01, 0x01, 20]);
    assert_eq!(ambient_request(10, true).payload[6], 10);
}

#[test]
fn volume_capped() {
    assert_eq!(set_volume_request(45).payload, vec![0xA8, 0x20, 30]);
    assert_eq!(set_volume_request(7).payload, vec![0xA8, 0x20, 7]);
}

#[test]
fn eq_bands_clamped_and_offset() {
    let r = set_eq_request(&[-12, -10, 0, 3, 10, 100]);
    assert_eq!(r.payload, vec![0x58, 0x00, 0xA0, 6, 0, 0, 10, 13, 20, 20]);
    assert_eq!(set_eq_request(&[]).payload, vec![0x58, 0x00, 0xA0, 0]);
}

#[test]
fn auto_off_request_codes() {
    assert_eq!(set_auto_off_request(0).unwrap().payload, vec![0x28, 0x05, 0x11, 0x00]);
    assert_eq!(set_auto_off_request(60).unwrap().payload, vec![0x28, 0x05, 0x10, 0x02]);
    assert_eq!(set_auto_off_request(7).unwrap_err(), InvalidAutoOff);
}

#[test]
fn inverted_toggles() {
    assert_eq!(set_speak_to_chat_request(true).payload, vec![0xF8, 0x0C, 0x00, 0x01]);
    assert_eq!(set_speak_to_chat_request(false).payload, vec![0xF8, 0x0C, 0x01, 0x01]);
    let m = set_multipoint_request(false);
    assert_eq!(m.payload, vec![0xD8, 0xD2, 0x00, 0x01]);
    assert_eq!(m.expect, Some(0xD9));
    assert_eq!(m.timeout_ms, 5000);
}

#[test]
fn playback_codes() {
    assert_eq!(playback_request(PlaybackAction::Pause).payload[3], 1);
    assert_eq!(playback_request(PlaybackAction::Next).payload[3], 2);
    assert_eq!(playback_request(PlaybackAction::Prev).payload[3], 3);
    assert_eq!(playback_request(PlaybackAction::Play).payload[3], 7);
}

#[test]
fn anc_query_order() {
    let st = AncStatus { mode: AncMode::Ambient, voice: false, level: 5 };
    assert_eq!(anc_next_step(0x19, Some(st)), AncStep::Found(st));
    assert_eq!(anc_next_step(0x19, None), AncStep::Try(0x17));
    assert_eq!(anc_next_step(0x17, None), AncStep::NotFound);
    assert_eq!(anc_next_step(0x17, Some(st)), AncStep::Found(st));
}
