use rusty_wifi::codec::{deserialize, serialize};
use rusty_wifi::wifi::WiFi;

#[test]
fn serialize_exact_text() {
    let aps = vec![WiFi::new("Home", "AA:BB", 20, 6, 80)];
    let text = serialize(&aps);
    assert_eq!(
        text.as_str(),
        "[{\"ssid\":\"Home\",\"bssid\":\"AA:BB\",\"bandwidth\":20,\"channel\":6,\"signal\":80}]"
    );
}

#[test]
fn serialize_empty_collection() {
    let aps: Vec<WiFi> = vec![];
    assert_eq!(serialize(&aps).as_str(), "[]");
    assert_eq!(deserialize("[]").unwrap(), aps);
}

#[test]
fn round_trip_preserves_fields_and_order() {
    let aps = vec![
        WiFi::new("Home", "AA:BB:CC:DD:EE:FF", 20, 6, 80),
        WiFi::new("Office 5G", "11:22:33:44:55:66", 40, 36, -60),
        WiFi::new("", "FF:FF:FF:FF:FF:FF", 0, 0, 0),
    ];
    let text = serialize(&aps);
    let back = deserialize(text.as_str()).unwrap();
    assert_eq!(back, aps);
}

#[test]
fn round_trip_escapes_metacharacters() {
    let aps = vec![WiFi::new("a \"quoted\" \\ name", "AA", 20, 1, 2)];
    let text = serialize(&aps);
    let back = deserialize(text.as_str()).unwrap();
    assert_eq!(back, aps);
}

#[test]
fn deserialize_accepts_whitespace_between_tokens() {
    let text = " [ {\"ssid\": \"H\",\n  \"bssid\": \"B\",\n  \"bandwidth\": 20,\n  \"channel\": 1,\n  \"signal\": 2} ] ";
    let aps = deserialize(text).unwrap();
    assert_eq!(aps, vec![WiFi::new("H", "B", 20, 1, 2)]);
}

#[test]
fn deserialize_decodes_escapes() {
    let text = "[{\"ssid\":\"a\\\"b\\\\c\\nd\",\"bssid\":\"x\\/y\",\"bandwidth\":1,\"channel\":2,\"signal\":3}]";
    let aps = deserialize(text).unwrap();
    assert_eq!(aps[0].ssid().as_str(), "a\"b\\c\nd");
    assert_eq!(aps[0].bssid().as_str(), "x/y");
}

#[test]
fn deserialize_rejects_garbage() {
    assert!(deserialize("garbage").is_err());
    assert!(deserialize("").is_err());
    assert!(deserialize("{}").is_err());
}

#[test]
fn deserialize_rejects_truncated_input() {
    assert!(deserialize("[{\"ssid\":\"H\",\"bssid\":\"B\",\"bandwidth\":20,\"channel\":1,\"signal\":2}").is_err());
    assert!(deserialize("[{\"ssid\":\"H\"").is_err());
}

#[test]
fn deserialize_rejects_wrong_key_order() {
    let text = "[{\"bssid\":\"B\",\"ssid\":\"H\",\"bandwidth\":20,\"channel\":1,\"signal\":2}]";
    assert!(deserialize(text).is_err());
}

#[test]
fn deserialize_rejects_out_of_range_numbers() {
    let text = "[{\"ssid\":\"H\",\"bssid\":\"B\",\"bandwidth\":99999999999,\"channel\":1,\"signal\":2}]";
    assert!(deserialize(text).is_err());
}

#[test]
fn deserialize_rejects_trailing_text() {
    let text = "[{\"ssid\":\"H\",\"bssid\":\"B\",\"bandwidth\":20,\"channel\":1,\"signal\":2}] extra";
    assert!(deserialize(text).is_err());
}

#[test]
fn deserialize_boundary_values() {
    let aps = vec![WiFi::new("m", "b", i32::MIN, i32::MAX, -1)];
    let text = serialize(&aps);
    let back = deserialize(text.as_str()).unwrap();
    assert_eq!(back, aps);
}
