use getmacrede::models::{Device, DeviceStatus, Timestamp};

#[test]
fn mac_with_wrong_group_count_is_invalid() {
    assert!(!Device::is_valid_mac("AA:BB:CC"));
}

#[test]
fn mac_with_non_hex_digit_is_invalid() {
    assert!(!Device::is_valid_mac("GG:11:22:33:44:55"));
}

#[test]
fn well_formed_device_validates() {
    let d = Device::new("AA:11:22:33:44:55".to_string(), "10.0.0.1".to_string(), None, None);
    assert!(d.validate());
}

#[test]
fn device_with_bad_address_fails_validation() {
    let d = Device::new("AA:BB:CC".to_string(), "10.0.0.1".to_string(), None, None);
    assert!(!d.validate());
    let d = Device::new("GG:11:22:33:44:55".to_string(), "10.0.0.1".to_string(), None, None);
    assert!(!d.validate());
    let d = Device::new("AA:11:22:33:44:55".to_string(), "AA:11:22:33:44:55".to_string(), None, None);
    assert!(!d.validate());
    let d = Device::new("10.0.0.1".to_string(), "10.0.0.1".to_string(), None, None);
    assert!(!d.validate());
}

#[test]
fn mac_forms() {
    assert!(Device::is_valid_mac("AA:11:22:33:44:55"));
    assert!(Device::is_valid_mac("aa:bb:cc:dd:ee:ff"));
    assert!(Device::is_valid_mac("00:00:00:00:00:00"));
    assert!(!Device::is_valid_mac(""));
    assert!(!Device::is_valid_mac("AA-11-22-33-44-55"));
    assert!(!Device::is_valid_mac("AA:11:22:33:44:5"));
    assert!(!Device::is_valid_mac("AA:11:22:33:44:555"));
    assert!(!Device::is_valid_mac("AA:11:22:33:44:55:"));
    assert!(!Device::is_valid_mac("AA:11:22:33:44"));
    assert!(!Device::is_valid_mac("AA:11:22:33:44:55:66"));
    assert!(!Device::is_valid_mac("A:111:22:33:44:55"));
    assert!(!Device::is_valid_mac("é:11:22:33:44:55"));
}

#[test]
fn ip_forms() {
    assert!(Device::is_valid_ip("10.0.0.1"));
    assert!(Device::is_valid_ip("255.255.255.255"));
    assert!(!Device::is_valid_ip("10.0.0"));
    assert!(!Device::is_valid_ip("10.0.0.256"));
    assert!(!Device::is_valid_ip("AA:11:22:33:44:55"));
    assert!(!Device::is_valid_ip(""));
}

#[test]
fn new_device_is_online_and_keeps_what_it_was_given() {
    let d = Device::new(
        "AA:11:22:33:44:55".to_string(),
        "10.0.0.1".to_string(),
        Some("host".to_string()),
        Some("Vendor".to_string()),
    );
    assert_eq!(d.mac, "AA:11:22:33:44:55");
    assert_eq!(d.ip, "10.0.0.1");
    assert_eq!(d.hostname.as_deref(), Some("host"));
    assert_eq!(d.vendor.as_deref(), Some("Vendor"));
    assert_eq!(d.status, DeviceStatus::Online);
    assert_eq!(d.virtual_mac, None);
    assert!(d.last_seen.secs > 1_600_000_000);
}

#[test]
fn device_seen_at_a_given_time() {
    let at = Timestamp::new(1_700_000_000, 5);
    let d = Device::seen_at("AA:11:22:33:44:55".to_string(), "10.0.0.1".to_string(), None, None, at);
    assert_eq!(d.last_seen, at);
    assert_eq!(d.status, DeviceStatus::Online);
    let copy = d.clone();
    assert_eq!(copy.mac, d.mac);
    assert_eq!(copy.last_seen, d.last_seen);
}

#[test]
fn status_names() {
    assert_eq!(DeviceStatus::Online.to_string(), "Online");
    assert_eq!(DeviceStatus::Offline.to_string(), "Offline");
    assert_eq!(DeviceStatus::Block.to_string(), "Block");
}

#[test]
fn timestamps_compare_by_nanoseconds() {
    let a = Timestamp::new(10, 999_999_999);
    let b = Timestamp::new(11, 0);
    assert_eq!(b.nanos_since(&a), 1);
    assert_eq!(a.nanos_since(&b), -1);
    assert!(b.is_after(&a));
    assert!(!a.is_after(&b));
    assert!(!a.is_after(&a));
    assert_eq!(Timestamp::new(-1, 500_000_000).nanos_since(&Timestamp::new(0, 0)), -500_000_000);
}
