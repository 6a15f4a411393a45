use sonyctl::discover::{find_sony_mac_in, find_sony_mac_in_output, sony_line_mac, split_fields, split_lines, white_space};

#[test]
fn finds_first_sony_device() {
    let out = "Device 11:22:33:44:55:66 Keyboard\n\
               Device AC:80:0A:00:11:22 WH-1000XM6\n\
               Device AC:80:0A:00:11:33 WF-1000XM5\n";
    assert_eq!(find_sony_mac_in(out), Some("AC:80:0A:00:11:22".to_string()));
}

#[test]
fn match_ignores_case() {
    let out = "Device 00:11:22:33:44:55 wf-1000xm4\r\n";
    assert_eq!(find_sony_mac_in(out), Some("00:11:22:33:44:55".to_string()));
}

#[test]
fn no_sony_device() {
    assert_eq!(find_sony_mac_in(""), None);
    assert_eq!(find_sony_mac_in("Device 00:11:22:33:44:55 Speaker\n"), None);
    // a matching line without a second field is passed over
    assert_eq!(find_sony_mac_in("WH-1000XM6\nDevice 01:02:03:04:05:06 WH-1000XM5"),
        Some("01:02:03:04:05:06".to_string()));
}

#[test]
fn single_line() {
    assert_eq!(sony_line_mac("  Device\tAA:BB  name", "WH-1000XM5"), Some("AA:BB".to_string()));
    assert_eq!(sony_line_mac("Device AA:BB WH-1000XM5", "DEVICE"), None);
}

#[test]
fn white_space_agrees_with_std() {
    for u in 0u32..=0x10FFFF {
        if let Some(c) = char::from_u32(u) {
            assert_eq!(white_space(c), c.is_whitespace(), "{u:#x}");
        }
    }
}

#[test]
fn lines_and_fields_agree_with_std() {
    let texts = [
        "", "\n", "a", "a\n", "a\r\nb", "a\r", "foo\nbar\n\r\nbaz\r", "\r\n\r\n", "x\n\ny\n",
        "  a  b\t\tc ", "\u{3000}w\u{a0}x\u{85}", "one",
    ];
    for t in texts {
        let chars: Vec<char> = t.chars().collect();
        let lines: Vec<String> = split_lines(&chars).into_iter().map(|v| v.into_iter().collect()).collect();
        let want: Vec<String> = t.lines().map(|l| l.to_string()).collect();
        assert_eq!(lines, want, "{t:?}");
        let fields: Vec<String> = split_fields(&chars).into_iter().map(|v| v.into_iter().collect()).collect();
        let want: Vec<String> = t.split_whitespace().map(|l| l.to_string()).collect();
        assert_eq!(fields, want, "{t:?}");
    }
}

#[test]
fn raw_output_is_decoded_then_searched() {
    let mut out = b"Device 00:11:22:33:44:55 \xFFSpeaker\n".to_vec();
    out.extend(b"Device AA:BB:CC:DD:EE:01 WH-1000XM6\n");
    assert_eq!(find_sony_mac_in_output(&out), Some("AA:BB:CC:DD:EE:01".to_string()));
    assert_eq!(find_sony_mac_in_output(b""), None);
    // an invalid byte becomes U+FFFD and is kept inside the field
    assert_eq!(find_sony_mac_in_output(b"Device A\xFFB wf-1000xm5"), Some("A\u{FFFD}B".to_string()));
}
