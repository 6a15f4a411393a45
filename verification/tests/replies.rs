use sonyctl::headphones::{AncMode, AncStatus};
use sonyctl::replies::{
    anc_from_replies, auto_off_from_replies, battery_from_replies, codec_from_replies,
    codec_name_of, devices_from_replies, dsee_from_replies, eq_from_replies,
    firmware_from_replies, model_from_replies, multipoint_confirmed, multipoint_from_replies,
    speak_to_chat_from_replies, voice_guidance_from_replies, volume_from_replies, MalformedReply,
};

#[test]
fn battery_reads_first_reply() {
    let rs = vec![vec![0x11], vec![0x23, 0x00, 0x55], vec![0x23, 0x00, 0x10]];
    assert_eq!(battery_from_replies(&rs), 0x55);
    assert_eq!(battery_from_replies(&vec![vec![0x23, 0x00]]), -1);
    assert_eq!(battery_from_replies(&vec![]), -1);
}

#[test]
fn volume_reads_level_or_fails_on_short_payload() {
    assert_eq!(volume_from_replies(&vec![vec![0xA7, 0x20, 12]]), Ok(Some(12)));
    assert_eq!(volume_from_replies(&vec![vec![0x01, 0x02]]), Ok(None));
    assert_eq!(volume_from_replies(&vec![vec![0xA7]]), Err(MalformedReply));
    assert_eq!(volume_from_replies(&vec![vec![]]), Err(MalformedReply));
    // a good reply before a malformed one decides
    assert_eq!(volume_from_replies(&vec![vec![0xA7, 0x20, 3], vec![0xA7]]), Ok(Some(3)));
}

#[test]
fn toggles_read_inverted_where_the_device_inverts() {
    assert_eq!(speak_to_chat_from_replies(&vec![vec![0xF7, 0x0C, 0]]), Ok(Some(true)));
    assert_eq!(speak_to_chat_from_replies(&vec![vec![0xF7, 0x0C, 1]]), Ok(Some(false)));
    assert_eq!(dsee_from_replies(&vec![vec![0xE7, 0x01, 1]]), Ok(Some(true)));
    assert_eq!(dsee_from_replies(&vec![vec![0xE7, 0x01, 0]]), Ok(Some(false)));
    assert_eq!(voice_guidance_from_replies(&vec![vec![0x47, 0x01, 2]]), Ok(Some(true)));
    assert_eq!(multipoint_from_replies(&vec![vec![0xD7, 0xD2, 0x00, 0x00]]), Ok(Some(true)));
    assert_eq!(multipoint_from_replies(&vec![vec![0xD7, 0xD2, 0x00]]), Ok(None));
}

#[test]
fn multipoint_confirmation() {
    let on = vec![vec![0xD9, 0xD2, 0x00, 0x00]];
    assert_eq!(multipoint_confirmed(&on, true), Ok(true));
    assert_eq!(multipoint_confirmed(&on, false), Ok(false));
    assert_eq!(multipoint_confirmed(&vec![], true), Ok(false));
    assert_eq!(multipoint_confirmed(&vec![vec![0xD9]], true), Err(MalformedReply));
}

#[test]
fn auto_off_codes() {
    assert_eq!(auto_off_from_replies(&vec![vec![0x27, 0x05, 0x11, 0x00]]), Ok(Some(0)));
    assert_eq!(auto_off_from_replies(&vec![vec![0x27, 0x05, 0x10, 0x03]]), Ok(Some(180)));
    assert_eq!(auto_off_from_replies(&vec![vec![0x27, 0x05, 0x42, 0x42]]), Ok(Some(9999)));
}

#[test]
fn anc_modes() {
    let nc = vec![vec![0x67, 0x19, 0x01, 0x01, 0x00, 0x00, 0x05]];
    assert_eq!(
        anc_from_replies(0x19, &nc),
        Ok(Some(AncStatus { mode: AncMode::NoiseCancelling, voice: false, level: 0 }))
    );
    let amb = vec![vec![0x69, 0x19, 0x01, 0x01, 0x01, 0x01, 0x07]];
    assert_eq!(
        anc_from_replies(0x19, &amb),
        Ok(Some(AncStatus { mode: AncMode::Ambient, voice: true, level: 7 }))
    );
    let off = vec![vec![0x67, 0x19, 0x01, 0x00, 0x00, 0x00, 0x00]];
    assert_eq!(
        anc_from_replies(0x19, &off),
        Ok(Some(AncStatus { mode: AncMode::Off, voice: false, level: 0 }))
    );
    // stale all-zero state is skipped for sub-type 0x17 only
    assert_eq!(anc_from_replies(0x17, &off), Ok(None));
    assert_eq!(anc_from_replies(0x19, &vec![vec![]]), Err(MalformedReply));
}

#[test]
fn eq_bands() {
    let r = eq_from_replies(&vec![vec![0x57, 0x00, 0xA0, 3, 10, 0, 20]]).unwrap().unwrap();
    assert_eq!(r.bands, vec![0, -10, 10]);
    // too few band bytes: skipped
    assert!(eq_from_replies(&vec![vec![0x57, 0x00, 0xA0, 3, 10]]).unwrap().is_none());
    // a band byte whose gain would fall below -128
    assert!(eq_from_replies(&vec![vec![0x57, 0x00, 0xA0, 1, 0x80]]).is_err());
    let r = eq_from_replies(&vec![vec![0x57, 0x00, 0xA0, 1, 0x8A]]).unwrap().unwrap();
    assert_eq!(r.bands, vec![-128]);
}

#[test]
fn info_texts_keep_last() {
    let rs = vec![
        vec![0x05, 0x01, 3, b'A', b'B', b'C'],
        vec![0x05, 0x02, 2, b'1', b'2'],
        vec![0x05, 0x01, 2, b'X', b'Y'],
    ];
    assert_eq!(model_from_replies(&rs).unwrap().unwrap(), "XY");
    assert_eq!(firmware_from_replies(&rs).unwrap().unwrap(), "12");
    assert!(model_from_replies(&vec![vec![0x05, 0x01, 4, b'A']]).unwrap().is_none());
    assert!(model_from_replies(&vec![vec![0x05]]).is_err());
}

#[test]
fn info_text_is_decoded_leniently() {
    // invalid UTF-8 is replaced, not copied through
    let rs = vec![vec![0x05, 0x01, 2, b'W', 0xFF]];
    assert_eq!(model_from_replies(&rs).unwrap().unwrap(), "W\u{FFFD}");
}

#[test]
fn codec_names() {
    assert_eq!(codec_name_of(0x01), "SBC");
    assert_eq!(codec_name_of(0x02), "AAC");
    assert_eq!(codec_name_of(0x10), "LDAC");
    assert_eq!(codec_name_of(0x20), "aptX");
    assert_eq!(codec_name_of(0x21), "aptX HD");
    assert_eq!(codec_name_of(0xAB), "0xab");
    assert_eq!(codec_name_of(0x03), "0x03");
    let rs = vec![vec![0x13, 0x02, 0x10], vec![0x13, 0x02, 0x21]];
    assert_eq!(codec_from_replies(&rs).unwrap().unwrap(), "aptX HD");
    assert!(codec_from_replies(&vec![vec![0x13, 0x02]]).unwrap().is_none());
}

fn entry(mac: &str, name: &str) -> Vec<u8> {
    let mut v = mac.as_bytes().to_vec();
    v.extend([0, 0, 0, 0]);
    v.push(name.len() as u8);
    v.extend(name.as_bytes());
    v
}

#[test]
fn device_list() {
    let mut p = vec![0x37, 1, 3];
    p.extend(entry("AA:BB:CC:DD:EE:FF", "Phone"));
    p.extend(entry("11:22:33:44:55:66", "Laptop"));
    p.extend(entry("01:02:03:04:05:06", "Tablet"));
    let (c, pd) = devices_from_replies(&vec![vec![0x01], p]).unwrap();
    assert_eq!(c.len(), 1);
    assert_eq!(c[0].mac, "AA:BB:CC:DD:EE:FF");
    assert_eq!(c[0].name, "Phone");
    assert_eq!(pd.len(), 2);
    assert_eq!(pd[1].name, "Tablet");
}

#[test]
fn device_list_cut_off_name() {
    let mut p = vec![0x37, 0, 2];
    p.extend("AA:BB:CC:DD:EE:FF".as_bytes());
    p.extend([0, 0, 0, 0, 9, b'x']);
    let (c, pd) = devices_from_replies(&vec![p]).unwrap();
    assert!(c.is_empty());
    assert_eq!(pd.len(), 1);
    assert_eq!(pd[0].name, "?");
    assert!(devices_from_replies(&vec![vec![]]).is_err());
}
