use sonyctl::headphones::device_info_from;
use sonyctl::display::{bar, battery_tone, eq_is_flat, is_on, is_on_word, BatteryTone};

#[test]
fn on_words() {
    for w in ["on", "ON", "1", "true", "True", "yes", "YES"] {
        assert!(is_on(w), "{w}");
    }
    for w in ["off", "0", "no", "", "onn"] {
        assert!(!is_on(w), "{w}");
    }
    assert!(is_on_word("on"));
    assert!(!is_on_word("ON"));
}

#[test]
fn battery_bar() {
    assert_eq!(bar(0), "░".repeat(15));
    assert_eq!(bar(100), "█".repeat(15));
    assert_eq!(bar(50), format!("{}{}", "█".repeat(7), "░".repeat(8)));
    assert_eq!(bar(255), "█".repeat(15));
}

#[test]
fn tones_and_flatness() {
    assert_eq!(battery_tone(31), BatteryTone::Good);
    assert_eq!(battery_tone(30), BatteryTone::Low);
    assert_eq!(battery_tone(10), BatteryTone::Critical);
    assert!(eq_is_flat(&[0, 0, 0]));
    assert!(eq_is_flat(&[]));
    assert!(!eq_is_flat(&[0, 1]));
}

#[test]
fn device_info_assembly() {
    let d = device_info_from(Some("WH-1000XM6".to_string()), None, Some("LDAC".to_string()));
    assert_eq!(d.model, "WH-1000XM6");
    assert_eq!(d.firmware, "");
    assert_eq!(d.codec, "LDAC");
}
