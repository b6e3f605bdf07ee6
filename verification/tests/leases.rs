use getmacrede::leases::{parse_dhcp_leases, LEASE_FILES};
use getmacrede::table::StringMap;

fn name_of(table: &StringMap, ip: &str) -> Option<String> {
    table.get(&ip.to_string()).cloned()
}

#[test]
fn flat_leases_bind_the_third_word_to_the_fourth() {
    let mut table = StringMap::new();
    parse_dhcp_leases(
        "1234567890 aa:bb:cc:dd:ee:ff 192.168.1.100 mylaptop *\n\
         1234567891 aa:bb:cc:dd:ee:00 192.168.1.101 * 01:aa\n\
         1234567892 aa:bb:cc:dd:ee:01 192.168.1.102\n\
         \t1234567893   aa:bb:cc:dd:ee:02\t192.168.1.103   phone  \r\n",
        &mut table,
    );
    assert_eq!(name_of(&table, "192.168.1.100").as_deref(), Some("mylaptop"));
    assert_eq!(name_of(&table, "192.168.1.101"), None);
    assert_eq!(name_of(&table, "192.168.1.102"), None);
    assert_eq!(name_of(&table, "192.168.1.103").as_deref(), Some("phone"));
}

#[test]
fn block_leases_bind_the_address_to_the_client_hostname() {
    let mut table = StringMap::new();
    parse_dhcp_leases(
        "lease 192.168.1.100 {\n  hardware ethernet aa:bb:cc:dd:ee:ff;\n  client-hostname \"mylaptop\";\n}\n\
         lease 192.168.1.101 {\n  client-hostname \"\";\n}\n\
         lease 192.168.1.102 {\n  client-hostname desk;\n}\n",
        &mut table,
    );
    assert_eq!(name_of(&table, "192.168.1.100").as_deref(), Some("mylaptop"));
    assert_eq!(name_of(&table, "192.168.1.101"), None);
    assert_eq!(name_of(&table, "192.168.1.102").as_deref(), Some("desk"));
}

#[test]
fn later_lease_replaces_an_earlier_one() {
    let mut table = StringMap::new();
    table.insert("192.168.1.100".to_string(), "stale".to_string());
    table.insert("192.168.1.7".to_string(), "kept".to_string());
    parse_dhcp_leases("1 aa:bb:cc:dd:ee:ff 192.168.1.100 first\n2 aa:bb:cc:dd:ee:ff 192.168.1.100 second", &mut table);
    assert_eq!(name_of(&table, "192.168.1.100").as_deref(), Some("second"));
    assert_eq!(name_of(&table, "192.168.1.7").as_deref(), Some("kept"));
    parse_dhcp_leases("lease 192.168.1.100 {\nclient-hostname \"third\";", &mut table);
    assert_eq!(name_of(&table, "192.168.1.100").as_deref(), Some("third"));
}

#[test]
fn hostname_line_before_any_lease_line_binds_nothing() {
    let mut table = StringMap::new();
    parse_dhcp_leases("client-hostname \"orphan\";\nlease\nlease  \n", &mut table);
    assert!(name_of(&table, "").is_none());
    parse_dhcp_leases("", &mut table);
    assert!(name_of(&table, "lease").is_none());
}

#[test]
fn lease_files_in_reading_order() {
    assert_eq!(LEASE_FILES.len(), 6);
    assert_eq!(LEASE_FILES[0], "/var/lib/dhcp/dhcpd.leases");
    assert_eq!(LEASE_FILES[5], "/etc/pihole/dhcp.leases");
}

#[test]
fn closing_brace_ends_the_block() {
    let mut table = StringMap::new();
    parse_dhcp_leases(
        "lease 192.168.1.100 {\n  client-hostname \"inside\";\n}\nclient-hostname \"outside\";\n\
         lease 192.168.1.101 {\n }\r\n  client-hostname \"late\";\n",
        &mut table,
    );
    assert_eq!(name_of(&table, "192.168.1.100").as_deref(), Some("inside"));
    assert_eq!(name_of(&table, "192.168.1.101"), None);
}
