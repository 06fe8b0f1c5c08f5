use rusty_wifi::wifi::{Band, WiFi};

#[test]
fn wifi_parser_test() {
    let raw = "SSID:Test\nCHAN:4\nSIGNAL:90\nBSSID:82\\:45\\:58\\:31\\:B1\\:64";
    let wifis = WiFi::parse_nmcli(raw, 4);
    assert_eq!(wifis.len(), 1);
    let wifi = &wifis[0];
    assert_eq!(
        wifi,
        &WiFi::new("Test", "82:45:58:31:B1:64", 20, 4, 90)
    );
}

#[test]
fn single_record_with_trailing_newline() {
    let raw = "SSID:Home\nCHAN:6\nSIGNAL:80\nBSSID:AA\\:BB\\:CC\\:DD\\:EE\\:FF\n";
    let wifis = WiFi::parse_nmcli(raw, 4);
    assert_eq!(wifis.len(), 1);
    assert_eq!(wifis[0].ssid().as_str(), "Home");
    assert_eq!(*wifis[0].channel(), 6);
    assert_eq!(*wifis[0].signal(), 80);
    assert_eq!(wifis[0].bssid().as_str(), "AA:BB:CC:DD:EE:FF");
    assert_eq!(*wifis[0].bandwidth(), 20);
}

#[test]
fn two_records_in_input_order() {
    let raw = "SSID:One\nCHAN:1\nSIGNAL:10\nBSSID:AA\nSSID:Two\nCHAN:2\nSIGNAL:20\nBSSID:BB\n";
    let wifis = WiFi::parse_nmcli(raw, 4);
    assert_eq!(wifis.len(), 2);
    assert_eq!(wifis[0], WiFi::new("One", "AA", 20, 1, 10));
    assert_eq!(wifis[1], WiFi::new("Two", "BB", 20, 2, 20));
}

#[test]
fn truncated_trailing_record_is_discarded() {
    let raw = "SSID:One\nCHAN:1\nSIGNAL:10\nBSSID:AA\nSSID:Lost\nCHAN:9\n";
    let wifis = WiFi::parse_nmcli(raw, 4);
    assert_eq!(wifis.len(), 1);
    assert_eq!(wifis[0].ssid().as_str(), "One");
}

#[test]
fn unknown_keys_and_malformed_lines_contribute_nothing() {
    // the two middle lines are consumed by the stride but set no field
    let raw = "SSID:X\nRATE:540 Mbit/s\nno colon here\nBSSID:AA\n";
    let wifis = WiFi::parse_nmcli(raw, 4);
    assert_eq!(wifis.len(), 1);
    assert_eq!(wifis[0], WiFi::new("X", "AA", 20, 0, 0));
}

#[test]
fn unparsable_numeric_fields_default_to_zero() {
    let raw = "SSID:Y\nCHAN:abc\nSIGNAL:99999999999\nBSSID:AA\n";
    let wifis = WiFi::parse_nmcli(raw, 4);
    assert_eq!(wifis.len(), 1);
    assert_eq!(*wifis[0].channel(), 0);
    assert_eq!(*wifis[0].signal(), 0);
}

#[test]
fn bandwidth_key_sets_channel_width() {
    let raw = "SSID:Z\nBW:40\nCHAN:11\nBSSID:AA\n";
    let wifis = WiFi::parse_nmcli(raw, 4);
    assert_eq!(wifis.len(), 1);
    assert_eq!(*wifis[0].bandwidth(), 40);
}

#[test]
fn negative_and_signed_numbers_parse() {
    let raw = "SSID:S\nCHAN:-3\nSIGNAL:+55\nBSSID:AA\n";
    let wifis = WiFi::parse_nmcli(raw, 4);
    assert_eq!(*wifis[0].channel(), -3);
    assert_eq!(*wifis[0].signal(), 55);
}

#[test]
fn empty_input_gives_no_records() {
    let wifis = WiFi::parse_nmcli("", 4);
    assert_eq!(wifis.len(), 0);
}

#[test]
fn crlf_line_endings_are_handled() {
    let raw = "SSID:W\r\nCHAN:7\r\nSIGNAL:42\r\nBSSID:AA\r\n";
    let wifis = WiFi::parse_nmcli(raw, 4);
    assert_eq!(wifis.len(), 1);
    assert_eq!(wifis[0], WiFi::new("W", "AA", 20, 7, 42));
}

#[test]
fn default_record_holds_placeholders() {
    let w = WiFi::default();
    assert_eq!(w, WiFi::new("Default", "FF:FF:FF:FF:FF:FF", 20, 0, 0));
}

#[test]
fn band_toggle_alternates() {
    let mut b = Band::default();
    assert_eq!(b, Band::G2);
    assert_eq!(b.label(), "2 GHz");
    b.toggle();
    assert_eq!(b, Band::G5);
    assert_eq!(b.label(), "5 GHz");
    b.toggle();
    assert_eq!(b, Band::G2);
}
