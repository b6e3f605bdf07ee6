use getmacrede::proxmox::{dashes_to_colons, normalize_mac, parse_hwaddr_from_config, MacMapping, ProxmoxConfig};

#[test]
fn hardware_address_in_an_interface_description() {
    assert_eq!(
        parse_hwaddr_from_config("name=eth0,bridge=vmbr0,hwaddr=BC:24:11:36:2D:6E,ip=dhcp,type=veth").as_deref(),
        Some("BC:24:11:36:2D:6E")
    );
    assert_eq!(parse_hwaddr_from_config(" hwaddr = AA:BB:CC:DD:EE:FF ,x=y").as_deref(), Some("AA:BB:CC:DD:EE:FF"));
    assert_eq!(parse_hwaddr_from_config("hwaddr=first,hwaddr=second").as_deref(), Some("first"));
    assert_eq!(parse_hwaddr_from_config("hwaddr=").as_deref(), Some(""));
}

#[test]
fn description_without_hardware_address() {
    assert_eq!(parse_hwaddr_from_config(""), None);
    assert_eq!(parse_hwaddr_from_config("name=eth0,bridge=vmbr0"), None);
    assert_eq!(parse_hwaddr_from_config("hwaddr"), None);
    assert_eq!(parse_hwaddr_from_config("hwaddr=a=b"), None);
    assert_eq!(parse_hwaddr_from_config("HWADDR=AA:BB:CC:DD:EE:FF"), None);
    assert_eq!(parse_hwaddr_from_config("virtio=BC:24:11:36:2D:6E,bridge=vmbr0"), None);
}

#[test]
fn addresses_are_normalized_to_upper_case_and_colons() {
    assert_eq!(normalize_mac("bc-24-11-36-2d-6e"), "BC:24:11:36:2D:6E");
    assert_eq!(normalize_mac("BC:24:11:36:2D:6E"), "BC:24:11:36:2D:6E");
    assert_eq!(normalize_mac(""), "");
    assert_eq!(dashes_to_colons("a-b:c"), "a:b:c");
}

#[test]
fn default_settings() {
    let config = ProxmoxConfig::default();
    assert_eq!(config.host, "192.168.1.1");
    assert_eq!(config.port, 8006);
    assert_eq!(config.username, "root");
    assert_eq!(config.password, "");
    assert_eq!(config.realm, "pam");
    assert!(!config.verify_ssl);
    let copy = config.clone();
    assert_eq!(copy.host, config.host);
}

#[test]
fn mapping_record() {
    let mapping = MacMapping {
        ip: "192.168.15.31".to_string(),
        real_mac: "BC:24:11:36:2D:6E".to_string(),
        description: Some("Proxmox LXC Container".to_string()),
    };
    let copy = mapping.clone();
    assert_eq!(copy.ip, "192.168.15.31");
    assert_eq!(copy.real_mac, "BC:24:11:36:2D:6E");
    assert_eq!(copy.description.as_deref(), Some("Proxmox LXC Container"));
}

#[test]
fn table_of_real_addresses() {
    let mappings = vec![
        MacMapping { ip: "192.168.1.31".to_string(), real_mac: "bc-24-11-36-2d-6e".to_string(), description: None },
        MacMapping { ip: "192.168.1.32".to_string(), real_mac: "AA:BB:CC:DD:EE:01".to_string(), description: None },
        MacMapping { ip: "192.168.1.31".to_string(), real_mac: "bc:24:11:36:2d:6f".to_string(), description: None },
    ];
    let table = getmacrede::proxmox::mac_corrections(&mappings);
    assert_eq!(table.get(&"192.168.1.31".to_string()).map(|s| s.as_str()), Some("BC:24:11:36:2D:6F"));
    assert_eq!(table.get(&"192.168.1.32".to_string()).map(|s| s.as_str()), Some("AA:BB:CC:DD:EE:01"));
    assert!(table.get(&"192.168.1.33".to_string()).is_none());
    assert!(getmacrede::proxmox::mac_corrections(&vec![]).get(&"192.168.1.31".to_string()).is_none());
}

#[test]
fn interfaces_of_a_guest() {
    let mut nets: Vec<Option<String>> = vec![None; 12];
    nets[0] = Some("name=eth0,bridge=vmbr0,hwaddr=BC:24:11:36:2D:6E,ip=dhcp,type=veth".to_string());
    nets[1] = Some("virtio=AA:BB:CC:DD:EE:FF,bridge=vmbr0".to_string());
    nets[9] = Some("hwaddr=bc-24-11-00-00-09".to_string());
    nets[10] = Some("hwaddr=BC:24:11:00:00:10".to_string());
    let interfaces = getmacrede::proxmox::network_interfaces(&nets);
    assert_eq!(interfaces.len(), 2);
    assert_eq!(interfaces[0].name, "net0");
    assert_eq!(interfaces[0].hwaddr.as_deref(), Some("BC:24:11:36:2D:6E"));
    assert_eq!(interfaces[1].name, "net9");
    assert_eq!(interfaces[1].hwaddr.as_deref(), Some("bc-24-11-00-00-09"));
    assert!(getmacrede::proxmox::network_interfaces(&vec![]).is_empty());

    let mut macs = vec!["FIRST".to_string()];
    getmacrede::proxmox::collect_macs(&mut macs, &interfaces);
    assert_eq!(macs, vec!["FIRST", "BC:24:11:36:2D:6E", "BC:24:11:00:00:09"]);
    let nameless = vec![getmacrede::proxmox::NetworkInterface { hwaddr: None, name: "net3".to_string() }];
    getmacrede::proxmox::collect_macs(&mut macs, &nameless);
    assert_eq!(macs.len(), 3);
}

#[test]
fn kind_of_guest() {
    assert_eq!(getmacrede::proxmox::guest_kind("lxc"), "lxc");
    assert_eq!(getmacrede::proxmox::guest_kind("qemu"), "qemu");
    assert_eq!(getmacrede::proxmox::guest_kind("LXC"), "qemu");
    assert_eq!(getmacrede::proxmox::guest_kind(""), "qemu");
}
