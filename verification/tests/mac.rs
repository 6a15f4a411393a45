use sonyctl::mac::{parse_hex_u8, parse_mac, MacError};

#[test]
fn parse_mac_reverses_bytes() {
    assert_eq!(parse_mac("AA:BB:CC:DD:EE:FF"), Ok([0xFF, 0xEE, 0xDD, 0xCC, 0xBB, 0xAA]));
    assert_eq!(parse_mac("01:23:45:67:89:ab"), Ok([0xab, 0x89, 0x67, 0x45, 0x23, 0x01]));
}

#[test]
fn parse_mac_accepts_what_from_str_radix_accepts() {
    assert_eq!(parse_mac("+1:2:003:4:5:6"), Ok([6, 5, 4, 3, 2, 1]));
}

#[test]
fn parse_mac_errors() {
    assert_eq!(parse_mac("AA:BB:CC:DD:EE"), Err(MacError::InvalidAddress));
    assert_eq!(parse_mac(""), Err(MacError::InvalidAddress));
    assert_eq!(parse_mac("AA:BB:CC:DD:EE:FF:00"), Err(MacError::InvalidAddress));
    assert_eq!(parse_mac("AA:BB:CC:DD:EE:GG"), Err(MacError::InvalidHex));
    assert_eq!(parse_mac("AA:BB::DD:EE:FF"), Err(MacError::InvalidHex));
    assert_eq!(parse_mac("AA:BB:100:DD:EE:FF"), Err(MacError::InvalidHex));
    assert_eq!(parse_mac("AA:BB:+:DD:EE:FF"), Err(MacError::InvalidHex));
    assert_eq!(parse_mac("AA:BB:-1:DD:EE:FF"), Err(MacError::InvalidHex));
}

#[test]
fn hex_byte_agrees_with_from_str_radix() {
    let cases = [
        "", "+", "-", "0", "00", "000000ff", "ff", "FF", "fF", "100", "+ff", "++1", "-1", "g",
        "1g", " 1", "1 ", "7f", "+0", "255", "256", "0x1", "Ａ", "abc", "0100",
    ];
    for s in cases {
        let chars: Vec<char> = s.chars().collect();
        assert_eq!(parse_hex_u8(&chars), u8::from_str_radix(s, 16).ok(), "{s:?}");
    }
}
