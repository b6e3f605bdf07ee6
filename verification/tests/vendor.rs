use getmacrede::vendor::{vendor_names_virtual, VendorDb};

#[test]
fn test_lookup_proxmox() {
    let db = VendorDb::new();
    assert_eq!(db.lookup("BC:24:11:36:2D:6E"), Some("Proxmox Virtual Machine".to_string()));
}

#[test]
fn test_lookup_intel() {
    let db = VendorDb::new();
    assert_eq!(db.lookup("68:5B:35:8D:89:41"), Some("Intel".to_string()));
}

#[test]
fn test_is_virtual() {
    let db = VendorDb::new();
    assert!(db.is_virtual("BC:24:11:36:2D:6E")); // Proxmox
    assert!(db.is_virtual("52:54:00:12:34:56")); // QEMU
    assert!(!db.is_virtual("68:5B:35:8D:89:41")); // Intel (physical)
}

#[test]
fn lookup_takes_lower_case_and_dashes() {
    let db = VendorDb::default();
    assert_eq!(db.lookup("bc:24:11:36:2d:6e"), Some("Proxmox Virtual Machine".to_string()));
    assert_eq!(db.lookup("bc-24-11-36-2d-6e"), Some("Proxmox Virtual Machine".to_string()));
    assert_eq!(db.lookup("00:15:5d"), Some("Microsoft Hyper-V".to_string()));
}

#[test]
fn later_entry_for_a_prefix_stands() {
    let db = VendorDb::new();
    assert_eq!(db.lookup("52:54:00:00:00:01"), Some("Realtek (or QEMU)".to_string()));
    assert_eq!(db.lookup("00:1B:21:00:00:01"), Some("Intel".to_string()));
}

#[test]
fn locally_administered_address_is_private() {
    let db = VendorDb::new();
    assert_eq!(db.lookup("02:00:00:00:00:01"), Some("Virtual/Private MAC".to_string()));
    assert_eq!(db.lookup("FE:FF:FF:00:00:01"), Some("Virtual/Private MAC".to_string()));
    assert_eq!(db.lookup("2:0:0"), Some("Virtual/Private MAC".to_string()));
    assert!(db.is_virtual("02:00:00:00:00:01"));
    assert_eq!(db.lookup("CA:4E:2B:00:00:01"), Some("Unknown (Private/Virtual)".to_string()));
}

#[test]
fn unknown_address_has_no_vendor() {
    let db = VendorDb::new();
    assert_eq!(db.lookup("F0:00:00:00:00:01"), None);
    assert_eq!(db.lookup("00:00:00:00:00:00"), None);
    assert_eq!(db.lookup("AA:BB"), None);
    assert_eq!(db.lookup(""), None);
    assert_eq!(db.lookup("GG:HH:II"), None);
    assert_eq!(db.lookup("100:00:00"), None);
    assert!(!db.is_virtual("F0:00:00:00:00:01"));
    assert!(!db.is_virtual(""));
}

#[test]
fn lookup_of_upper_case_text() {
    let db = VendorDb::new();
    assert_eq!(db.lookup_upper("68:5B:35:8D:89:41"), Some("Intel".to_string()));
    assert_eq!(db.lookup_upper("68:5b:35:8D:89:41"), None);
}

#[test]
fn vendor_names_that_mark_a_virtual_machine() {
    assert!(vendor_names_virtual("vmware"));
    assert!(vendor_names_virtual("microsoft hyper-v"));
    assert!(vendor_names_virtual("xen virtual machine"));
    assert!(vendor_names_virtual("oracle virtualbox"));
    assert!(vendor_names_virtual("realtek (or qemu)"));
    assert!(vendor_names_virtual("unknown (private/virtual)"));
    assert!(vendor_names_virtual("some kvm host"));
    assert!(vendor_names_virtual("proxmox"));
    assert!(!vendor_names_virtual("intel"));
    assert!(!vendor_names_virtual("VMware"));
    assert!(!vendor_names_virtual(""));
}

#[test]
fn every_registered_virtualization_vendor_is_virtual() {
    let db = VendorDb::new();
    for mac in ["00:15:5D:00:00:01", "00:50:56:00:00:01", "00:16:3E:00:00:01", "08:00:27:00:00:01"] {
        assert!(db.is_virtual(mac), "{}", mac);
    }
    for mac in ["00:00:0C:00:00:01", "B8:27:EB:00:00:01", "98:5A:EB:00:00:01"] {
        assert!(!db.is_virtual(mac), "{}", mac);
    }
}
