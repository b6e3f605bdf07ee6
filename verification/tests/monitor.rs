use getmacrede::models::{Device, DeviceStatus, Timestamp};
use getmacrede::monitor::{
    correct_mac, correct_macs, is_blacklisted, is_overdue, observe, records_agree, Event, Registry,
};
use getmacrede::table::StringMap;
use getmacrede::vendor::VendorDb;

fn at(secs: i64) -> Timestamp {
    Timestamp::new(secs, 0)
}

fn device(mac: &str, ip: &str, seen: i64) -> Device {
    Device::seen_at(mac.to_string(), ip.to_string(), None, None, at(seen))
}

fn registry_of(devices: Vec<Device>) -> Registry {
    let (registry, _) = Registry::from_stored(&devices, &StringMap::new(), &VendorDb::new());
    registry
}

fn plain(mac: &str, ip: &str, seen: i64) -> Device {
    let mut d = device(mac, ip, seen);
    d.vendor = Some("Known".to_string());
    d
}

#[test]
fn first_sighting_adds_an_online_device_and_announces_it() {
    let mut registry = Registry::new();
    let found = vec![device("aa:11:22:33:44:55", "10.0.0.1", 100)];
    let report = registry.merge(&found, &vec![], at(110), 30);
    assert!(report.dirty);
    assert_eq!(report.events.len(), 1);
    match &report.events[0] {
        Event::NewDevice { ip, mac } => {
            assert_eq!(ip, "10.0.0.1");
            assert_eq!(mac, "aa:11:22:33:44:55");
        }
        other => panic!("{:?}", other),
    }
    assert_eq!(registry.len(), 1);
    let d = &registry.devices()[0];
    assert_eq!(d.status, DeviceStatus::Online);
    assert_eq!(d.last_seen, at(100));
}

#[test]
fn merging_the_same_scan_twice_is_quiet_the_second_time() {
    let mut registry = registry_of(vec![plain("aa:11:22:33:44:01", "10.0.0.1", 0)]);
    let mut seen_again = plain("aa:11:22:33:44:01", "10.0.0.1", 100);
    seen_again.hostname = Some("alpha".to_string());
    let found = vec![seen_again, plain("aa:11:22:33:44:02", "10.0.0.2", 100)];
    let blacklist = vec!["AA:11:22:33:44:02".to_string()];
    let first = registry.merge(&found, &blacklist, at(100), 30);
    assert!(first.dirty);
    assert_eq!(first.events.len(), 1);
    let second = registry.merge(&found, &blacklist, at(100), 30);
    assert!(!second.dirty);
    assert!(second.events.is_empty());
    assert_eq!(registry.len(), 2);
    assert_eq!(registry.devices()[0].hostname.as_deref(), Some("alpha"));
    assert_eq!(registry.devices()[1].status, DeviceStatus::Block);
}

#[test]
fn unseen_device_goes_offline_once_after_two_and_a_half_intervals() {
    let mut registry = registry_of(vec![plain("aa:11:22:33:44:01", "10.0.0.1", 1000)]);
    let quiet = registry.merge(&vec![], &vec![], at(1075), 30);
    assert!(!quiet.dirty);
    assert!(quiet.events.is_empty());
    assert_eq!(registry.devices()[0].status, DeviceStatus::Online);

    let report = registry.merge(&vec![], &vec![], at(1076), 30);
    assert!(report.dirty);
    assert_eq!(report.events.len(), 1);
    match &report.events[0] {
        Event::WentOffline { ip } => assert_eq!(ip, "10.0.0.1"),
        other => panic!("{:?}", other),
    }
    assert_eq!(registry.devices()[0].status, DeviceStatus::Offline);

    let later = registry.merge(&vec![], &vec![], at(1200), 30);
    assert!(!later.dirty);
    assert!(later.events.is_empty());
    assert_eq!(registry.devices()[0].status, DeviceStatus::Offline);
}

#[test]
fn overdue_is_more_than_two_and_a_half_intervals() {
    assert!(!is_overdue(&at(0), &at(75), 30));
    assert!(is_overdue(&at(0), &Timestamp::new(75, 1), 30));
    assert!(is_overdue(&at(0), &at(76), 30));
    assert!(!is_overdue(&at(0), &Timestamp::new(2, 500_000_000), 1));
    assert!(is_overdue(&at(0), &Timestamp::new(2, 500_000_001), 1));
    assert!(!is_overdue(&at(10), &at(5), 1));
    assert!(!is_overdue(&at(0), &at(0), 0));
    assert!(is_overdue(&at(0), &Timestamp::new(0, 1), 0));
    assert!(!is_overdue(&at(0), &at(i64::MAX), u64::MAX));
}

#[test]
fn offline_device_that_answers_is_back_online() {
    let mut registry = registry_of(vec![plain("aa:11:22:33:44:01", "10.0.0.1", 0)]);
    registry.merge(&vec![], &vec![], at(1000), 30);
    assert_eq!(registry.devices()[0].status, DeviceStatus::Offline);
    let found = vec![plain("aa:11:22:33:44:01", "10.0.0.1", 1999)];
    let report = registry.merge(&found, &vec![], at(2000), 30);
    assert!(report.dirty);
    assert_eq!(report.events.len(), 1);
    match &report.events[0] {
        Event::BackOnline { ip } => assert_eq!(ip, "10.0.0.1"),
        other => panic!("{:?}", other),
    }
    assert_eq!(registry.devices()[0].status, DeviceStatus::Online);
    assert_eq!(registry.devices()[0].last_seen, at(2000));
}

#[test]
fn blacklisted_device_is_blocked_even_while_it_answers() {
    let blacklist = vec!["AA:11:22:33:44:01".to_string()];
    let mut registry = Registry::new();
    for round in 0..3 {
        let found = vec![plain("aa:11:22:33:44:01", "10.0.0.1", 100 + round)];
        registry.merge(&found, &blacklist, at(100 + round), 30);
        assert_eq!(registry.devices()[0].status, DeviceStatus::Block);
    }
    registry.merge(&vec![], &blacklist, at(100_000), 30);
    assert_eq!(registry.devices()[0].status, DeviceStatus::Block);
}

#[test]
fn blacklisting_a_known_device_blocks_it_without_an_event() {
    let mut registry = registry_of(vec![plain("aa:11:22:33:44:01", "10.0.0.1", 0)]);
    let blacklist = vec!["aa:11:22:33:44:01".to_string()];
    let report = registry.merge(&vec![], &blacklist, at(10), 30);
    assert!(report.dirty);
    assert!(report.events.is_empty());
    assert_eq!(registry.devices()[0].status, DeviceStatus::Block);
    let again = registry.merge(&vec![], &blacklist, at(20), 30);
    assert!(!again.dirty);
}

#[test]
fn offline_device_that_answers_while_blacklisted_is_blocked_quietly() {
    let mut registry = registry_of(vec![plain("aa:11:22:33:44:01", "10.0.0.1", 0)]);
    registry.merge(&vec![], &vec![], at(1000), 30);
    let blacklist = vec!["aa:11:22:33:44:01".to_string()];
    let found = vec![plain("aa:11:22:33:44:01", "10.0.0.1", 2000)];
    let report = registry.merge(&found, &blacklist, at(2000), 30);
    assert!(report.dirty);
    assert!(report.events.is_empty());
    assert_eq!(registry.devices()[0].status, DeviceStatus::Block);
}

#[test]
fn device_taken_off_the_blacklist_is_online_when_it_answers() {
    let blacklist = vec!["aa:11:22:33:44:01".to_string()];
    let mut registry = Registry::new();
    let found = vec![plain("aa:11:22:33:44:01", "10.0.0.1", 100)];
    registry.merge(&found, &blacklist, at(100), 30);
    assert_eq!(registry.devices()[0].status, DeviceStatus::Block);
    let report = registry.merge(&found, &vec![], at(130), 30);
    assert!(report.dirty);
    assert!(report.events.is_empty());
    assert_eq!(registry.devices()[0].status, DeviceStatus::Online);
}

#[test]
fn blacklist_is_matched_in_any_case() {
    let list = vec!["Aa:Bb:Cc:Dd:Ee:Ff".to_string(), "11:22:33:44:55:66".to_string()];
    assert!(is_blacklisted(&list, "aa:bb:cc:dd:ee:ff"));
    assert!(is_blacklisted(&list, "AA:BB:CC:DD:EE:FF"));
    assert!(is_blacklisted(&list, "11:22:33:44:55:66"));
    assert!(!is_blacklisted(&list, "aa:bb:cc:dd:ee:f0"));
    assert!(!is_blacklisted(&list, "aa:bb:cc:dd:ee"));
    assert!(!is_blacklisted(&vec![], "aa:bb:cc:dd:ee:ff"));
}

#[test]
fn invalid_sightings_are_passed_over() {
    let mut registry = Registry::new();
    let found = vec![
        device("AA:BB:CC", "10.0.0.1", 0),
        device("aa:11:22:33:44:01", "10.0.0", 0),
        device("aa:11:22:33:44:02", "10.0.0.2", 0),
    ];
    let report = registry.merge(&found, &vec![], at(0), 30);
    assert_eq!(registry.len(), 1);
    assert_eq!(report.events.len(), 1);
    assert_eq!(registry.devices()[0].ip, "10.0.0.2");
}

#[test]
fn mapped_address_replaces_the_one_seen() {
    let mut mappings = StringMap::new();
    mappings.insert("192.168.1.31".to_string(), "BC:24:11:36:2D:6E".to_string());
    let vendors = VendorDb::new();
    let seen = device("BC:24:11:AA:BB:CC", "192.168.1.31", 100);
    let found = correct_macs(&vec![seen], &mappings, &vendors);
    let mut registry = Registry::new();
    registry.merge(&found, &vec![], at(100), 30);
    let merged = &registry.devices()[0];
    assert_eq!(merged.mac, "BC:24:11:36:2D:6E");
    assert_eq!(merged.virtual_mac.as_deref(), Some("BC:24:11:AA:BB:CC"));
    assert_eq!(merged.vendor.as_deref(), Some("Proxmox Virtual Machine"));
}

#[test]
fn virtual_address_without_mapping_is_noted_as_its_own() {
    let vendors = VendorDb::new();
    let mappings = StringMap::new();
    let fixed = correct_mac(&device("52:54:00:12:34:56", "10.0.0.9", 0), &mappings, &vendors);
    assert_eq!(fixed.mac, "52:54:00:12:34:56");
    assert_eq!(fixed.virtual_mac.as_deref(), Some("52:54:00:12:34:56"));
    let physical = correct_mac(&device("68:5B:35:8D:89:41", "10.0.0.8", 0), &mappings, &vendors);
    assert_eq!(physical.virtual_mac, None);
    assert_eq!(physical.mac, "68:5B:35:8D:89:41");
}

#[test]
fn real_address_is_not_replaced_by_a_virtual_one() {
    let known = plain("68:5B:35:8D:89:41", "10.0.0.1", 0);
    let mut found = plain("52:54:00:12:34:56", "10.0.0.1", 10);
    found.virtual_mac = Some("52:54:00:12:34:56".to_string());
    let after = observe(&known, &found, false, at(10));
    assert_eq!(after.mac, "68:5B:35:8D:89:41");
    assert_eq!(after.virtual_mac.as_deref(), Some("52:54:00:12:34:56"));
    assert_eq!(after.last_seen, at(10));
}

#[test]
fn virtual_address_gives_way_to_the_real_one_that_is_mapped_to_it() {
    let mut known = plain("52:54:00:12:34:56", "10.0.0.1", 0);
    known.virtual_mac = Some("52:54:00:12:34:56".to_string());
    let mut found = plain("68:5B:35:8D:89:41", "10.0.0.1", 10);
    found.virtual_mac = Some("52:54:00:12:34:56".to_string());
    let after = observe(&known, &found, false, at(10));
    assert_eq!(after.mac, "68:5B:35:8D:89:41");
    assert_eq!(after.virtual_mac.as_deref(), Some("52:54:00:12:34:56"));
}

#[test]
fn changed_physical_address_is_taken_over() {
    let known = plain("68:5B:35:8D:89:41", "10.0.0.1", 0);
    let found = plain("68:5B:35:8D:89:42", "10.0.0.1", 10);
    let after = observe(&known, &found, false, at(10));
    assert_eq!(after.mac, "68:5B:35:8D:89:42");
    assert_eq!(after.virtual_mac, None);
    assert!(!records_agree(&known, &after));
}

#[test]
fn vendor_and_host_name_move_only_to_something() {
    let mut known = plain("68:5B:35:8D:89:41", "10.0.0.1", 0);
    known.hostname = Some("old".to_string());
    let mut found = device("68:5B:35:8D:89:41", "10.0.0.1", 10);
    found.hostname = None;
    found.vendor = None;
    let after = observe(&known, &found, false, at(10));
    assert_eq!(after.hostname.as_deref(), Some("old"));
    assert_eq!(after.vendor.as_deref(), Some("Known"));
    assert!(records_agree(&known, &after));
    found.hostname = Some("new".to_string());
    found.vendor = Some("Other".to_string());
    let after = observe(&known, &found, true, at(10));
    assert_eq!(after.hostname.as_deref(), Some("new"));
    assert_eq!(after.vendor.as_deref(), Some("Other"));
    assert_eq!(after.status, DeviceStatus::Block);
}

#[test]
fn refreshed_last_seen_alone_is_nothing_to_write() {
    let mut registry = registry_of(vec![plain("aa:11:22:33:44:01", "10.0.0.1", 0)]);
    let found = vec![plain("aa:11:22:33:44:01", "10.0.0.1", 50)];
    let report = registry.merge(&found, &vec![], at(50), 30);
    assert!(!report.dirty);
    assert!(report.events.is_empty());
    assert_eq!(registry.devices()[0].last_seen, at(50));
}

#[test]
fn stored_devices_are_taken_up_with_mapping_and_vendor() {
    let mut mappings = StringMap::new();
    mappings.insert("10.0.0.1".to_string(), "68:5B:35:8D:89:41".to_string());
    let vendors = VendorDb::new();
    let stored = vec![
        device("52:54:00:12:34:56", "10.0.0.1", 5),
        device("BC:24:11:00:00:01", "10.0.0.2", 5),
        plain("A4:11:22:33:44:55", "10.0.0.3", 5),
        device("broken", "10.0.0.4", 5),
    ];
    let (registry, dirty) = Registry::from_stored(&stored, &mappings, &vendors);
    assert!(dirty);
    assert_eq!(registry.len(), 3);
    let first = &registry.devices()[0];
    assert_eq!(first.mac, "68:5B:35:8D:89:41");
    assert_eq!(first.virtual_mac.as_deref(), Some("52:54:00:12:34:56"));
    assert_eq!(first.vendor.as_deref(), Some("Intel"));
    let second = &registry.devices()[1];
    assert_eq!(second.virtual_mac.as_deref(), Some("BC:24:11:00:00:01"));
    assert_eq!(second.vendor.as_deref(), Some("Proxmox Virtual Machine"));
    let third = &registry.devices()[2];
    assert_eq!(third.virtual_mac, None);
    assert_eq!(third.vendor.as_deref(), Some("Known"));
}

#[test]
fn untouched_stored_devices_call_for_no_write() {
    let stored = vec![plain("A4:11:22:33:44:55", "10.0.0.3", 5)];
    let (registry, dirty) = Registry::from_stored(&stored, &StringMap::new(), &VendorDb::new());
    assert!(!dirty);
    assert_eq!(registry.len(), 1);
    assert!(registry.get(&"10.0.0.3".to_string()).is_some());
    assert!(registry.get(&"10.0.0.4".to_string()).is_none());
}

#[test]
fn of_two_stored_devices_with_one_address_the_later_seen_stays() {
    let stored = vec![
        plain("A4:11:22:33:44:01", "10.0.0.3", 5),
        plain("A4:11:22:33:44:02", "10.0.0.3", 9),
        plain("A4:11:22:33:44:03", "10.0.0.3", 7),
    ];
    let (registry, dirty) = Registry::from_stored(&stored, &StringMap::new(), &VendorDb::new());
    assert!(dirty);
    assert_eq!(registry.len(), 1);
    assert_eq!(registry.devices()[0].mac, "A4:11:22:33:44:02");
    let stored = vec![plain("A4:11:22:33:44:01", "10.0.0.3", 5), plain("A4:11:22:33:44:02", "10.0.0.3", 5)];
    let (registry, dirty) = Registry::from_stored(&stored, &StringMap::new(), &VendorDb::new());
    assert!(!dirty);
    assert_eq!(registry.devices()[0].mac, "A4:11:22:33:44:01");
}

#[test]
fn new_device_is_not_sent_offline_in_the_scan_that_found_it() {
    let mut registry = Registry::new();
    let found = vec![plain("aa:11:22:33:44:01", "10.0.0.1", 0)];
    let report = registry.merge(&found, &vec![], at(1000), 1);
    assert_eq!(report.events.len(), 1);
    assert_eq!(registry.devices()[0].status, DeviceStatus::Online);
}

#[test]
fn scan_that_repeats_an_address_is_quiet_the_second_time() {
    let mut mappings = StringMap::new();
    mappings.insert("10.0.0.1".to_string(), "68:5B:35:8D:89:41".to_string());
    let vendors = VendorDb::new();
    let seen = vec![
        device("bc:24:11:00:00:01", "10.0.0.1", 100),
        device("bc:24:11:00:00:02", "10.0.0.1", 100),
        device("52:54:00:12:34:56", "10.0.0.2", 100),
        device("a4:11:22:33:44:55", "10.0.0.2", 100),
        device("52:54:00:12:34:57", "10.0.0.2", 100),
        device("a4:11:22:33:44:66", "10.0.0.3", 100),
        device("a4:11:22:33:44:67", "10.0.0.3", 100),
    ];
    let found = correct_macs(&seen, &mappings, &vendors);
    let blacklist = vec!["A4:11:22:33:44:67".to_string()];
    let mut registry = registry_of(vec![
        plain("a4:00:00:00:00:01", "10.0.0.1", 0),
        plain("a4:00:00:00:00:02", "10.0.0.2", 0),
    ]);
    let first = registry.merge(&found, &blacklist, at(100), 30);
    assert!(first.dirty);
    assert_eq!(first.events.len(), 1);
    assert_eq!(registry.len(), 3);
    let second = registry.merge(&found, &blacklist, at(100), 30);
    assert!(!second.dirty);
    assert!(second.events.is_empty());
    assert_eq!(registry.len(), 3);
    assert_eq!(registry.devices()[0].mac, "a4:00:00:00:00:01");
    assert_eq!(registry.devices()[0].virtual_mac.as_deref(), Some("bc:24:11:00:00:02"));
    assert_eq!(registry.devices()[1].mac, "a4:11:22:33:44:55");
    assert_eq!(registry.devices()[1].virtual_mac.as_deref(), Some("52:54:00:12:34:57"));
    assert_eq!(registry.devices()[2].mac, "a4:11:22:33:44:67");
    assert_eq!(registry.devices()[2].status, DeviceStatus::Block);
}
