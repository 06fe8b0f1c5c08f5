use rusty_wifi::coordinator::{apply_import, plan_export, Coordinator};
use rusty_wifi::codec::serialize;
use rusty_wifi::store::Store;
use rusty_wifi::wifi::WiFi;

#[test]
fn second_rescan_request_is_noop() {
    let mut c = Coordinator::new();
    assert!(!c.scan_outstanding());
    assert!(c.request_rescan());
    assert!(c.scan_outstanding());
    // a request while one scan is outstanding starts nothing
    assert!(!c.request_rescan());
    assert!(c.scan_outstanding());
    c.note_scan_finished();
    assert!(!c.scan_outstanding());
    assert!(c.request_rescan());
}

#[test]
fn store_replace_installs_collection_wholesale() {
    let mut store = Store::new();
    assert_eq!(store.read().len(), 0);
    store.replace(vec![WiFi::new("A", "AA", 20, 1, 10)]);
    assert_eq!(store.read().len(), 1);
    assert_eq!(store.read()[0].ssid().as_str(), "A");
    store.replace(vec![]);
    assert_eq!(store.read().len(), 0);
}

#[test]
fn cancelled_import_leaves_store_unchanged() {
    let mut store = Store::with_collection(vec![WiFi::new("Keep", "AA", 20, 1, 10)]);
    let r = apply_import(&mut store, None);
    assert_eq!(r, Ok(false));
    assert_eq!(store.read()[0].ssid().as_str(), "Keep");
}

#[test]
fn malformed_import_reports_error_and_leaves_store_unchanged() {
    let mut store = Store::with_collection(vec![WiFi::new("Keep", "AA", 20, 1, 10)]);
    let r = apply_import(&mut store, Some("not json at all"));
    assert!(r.is_err());
    assert_eq!(store.read().len(), 1);
    assert_eq!(store.read()[0].ssid().as_str(), "Keep");
}

#[test]
fn successful_import_replaces_collection() {
    let mut store = Store::with_collection(vec![WiFi::new("Old", "AA", 20, 1, 10)]);
    let incoming = vec![
        WiFi::new("New1", "BB", 40, 6, 70),
        WiFi::new("New2", "CC", 20, 11, 50),
    ];
    let text = serialize(&incoming);
    let r = apply_import(&mut store, Some(text.as_str()));
    assert_eq!(r, Ok(true));
    assert_eq!(store.read(), &incoming);
}

#[test]
fn cancelled_export_writes_nothing() {
    let store = Store::with_collection(vec![WiFi::new("S", "AA", 20, 1, 10)]);
    assert!(plan_export(&store, false).is_none());
}

#[test]
fn export_serializes_current_snapshot() {
    let aps = vec![WiFi::new("S", "AA", 20, 1, 10)];
    let store = Store::with_collection(vec![WiFi::new("S", "AA", 20, 1, 10)]);
    let planned = plan_export(&store, true).unwrap();
    assert_eq!(planned, serialize(&aps));
}
