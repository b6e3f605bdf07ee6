//! Settings of the hypervisor interface and the manual table of real MAC addresses.

use crate::ipv4::digit_char;
use crate::table::StringMap;
use crate::text::{chars_equal, from_chars, opt_view, replace_char, replace_in_chars, split,
    split_chars, string_views, to_chars, trim, trim_chars, uppercase, views};
use vstd::prelude::*;
use vstd::string::StringExecFns;

verus! {

/// Where the hypervisor's interface is reached, and as whom.
#[derive(Debug)]
pub struct ProxmoxConfig {
    pub host: String,
    pub port: u16,
    pub username: String,
    pub password: String,
    pub realm: String,
    pub verify_ssl: bool,
}

impl Clone for ProxmoxConfig {
    fn clone(&self) -> (out: ProxmoxConfig)
        ensures
            out == *self,
    {
        ProxmoxConfig {
            host: self.host.clone(),
            port: self.port,
            username: self.username.clone(),
            password: self.password.clone(),
            realm: self.realm.clone(),
            verify_ssl: self.verify_ssl,
        }
    }
}

impl Default for ProxmoxConfig {
    /// The settings that an example file shows: the usual port, the `root` user
    /// of the `pam` realm, no password, certificates left unchecked.
    fn default() -> (out: ProxmoxConfig)
        ensures
            out.host@ == "192.168.1.1"@,
            out.port == 8006,
            out.username@ == "root"@,
            out.password@ == ""@,
            out.realm@ == "pam"@,
            !out.verify_ssl,
    {
        ProxmoxConfig {
            host: String::from_str("192.168.1.1"),
            port: 8006,
            username: String::from_str("root"),
            password: String::from_str(""),
            realm: String::from_str("pam"),
            verify_ssl: false,
        }
    }
}

/// One line of the manual table: the real MAC address of the device at `ip`.
#[derive(Debug)]
pub struct MacMapping {
    pub ip: String,
    pub real_mac: String,
    pub description: Option<String>,
}

impl Clone for MacMapping {
    fn clone(&self) -> (out: MacMapping)
        ensures
            out == *self,
    {
        MacMapping {
            ip: self.ip.clone(),
            real_mac: self.real_mac.clone(),
            description: self.description.clone(),
        }
    }
}

/// The address that one `key=value` part gives: the value, trimmed, where the
/// part holds exactly one `=` and its key, trimmed, is `hwaddr`.
pub open spec fn hwaddr_of_part(part: Seq<char>) -> Option<Seq<char>> {
    let sides = split(part, '=');
    if sides.len() == 2 && trim(sides[0]) == "hwaddr"@ {
        Some(trim(sides[1]))
    } else {
        None
    }
}

/// The address of the first part that gives one.
pub open spec fn first_hwaddr(parts: Seq<Seq<char>>) -> Option<Seq<char>>
    decreases parts.len(),
{
    if parts.len() == 0 {
        None
    } else {
        match hwaddr_of_part(parts[0]) {
            Some(found) => Some(found),
            None => first_hwaddr(parts.drop_first()),
        }
    }
}

/// The hardware address in a comma-separated interface description such as
/// `name=eth0,bridge=vmbr0,hwaddr=BC:24:11:36:2D:6E,ip=dhcp`.
pub open spec fn hwaddr_in_config(config: Seq<char>) -> Option<Seq<char>> {
    first_hwaddr(split(config, ','))
}

/// Reads the hardware address out of an interface description.
pub fn parse_hwaddr_from_config(config_str: &str) -> (out: Option<String>)
    ensures
        match out {
            Some(found) => hwaddr_in_config(config_str@) == Some(found@),
            None => hwaddr_in_config(config_str@) is None,
        },
{
    let config = to_chars(config_str);
    let parts = split_chars(&config, ',');
    let key = to_chars("hwaddr");
    let ghost all = split(config_str@, ',');
    let mut i: usize = 0;
    assert(all.skip(0) =~= all);
    while i < parts.len()
        invariant
            i <= parts.len(),
            views(parts@) == all,
            all == split(config_str@, ','),
            key@ == "hwaddr"@,
            first_hwaddr(all) == first_hwaddr(all.skip(i as int)),
        decreases parts.len() - i,
    {
        let sides = split_chars(&parts[i], '=');
        proof {
            assert(all.skip(i as int)[0] == parts@[i as int]@);
            assert(all.skip(i as int).drop_first() =~= all.skip(i + 1));
        }
        assert(views(sides@).len() == sides@.len());
        if sides.len() == 2 {
            let name = trim_chars(&sides[0]);
            assert(views(sides@)[0] == sides@[0]@ && views(sides@)[1] == sides@[1]@);
            if chars_equal(&name, &key) {
                let value = trim_chars(&sides[1]);
                proof {
                    let part = all.skip(i as int)[0];
                    assert(split(part, '=') == views(sides@));
                    assert(split(part, '=').len() == 2);
                    assert(hwaddr_of_part(part) == Some(value@));
                }
                return Some(from_chars(&value));
            }
        }
        i = i + 1;
    }
    None
}

/// A MAC address in the form in which the table keeps it: letters in upper
/// case, dashes turned into colons.
pub open spec fn normalized_mac(mac: Seq<char>) -> Seq<char> {
    replace_char(uppercase(mac), '-', ':')
}

/// Turns the dashes of an address, whose letters are already in upper case,
/// into colons.
pub fn dashes_to_colons(upper: &str) -> (out: String)
    ensures
        out@ == replace_char(upper@, '-', ':'),
{
    let chars = to_chars(upper);
    let replaced = replace_in_chars(&chars, '-', ':');
    from_chars(&replaced)
}

/// Puts a MAC address into the form in which the table keeps it.
pub fn normalize_mac(mac: &str) -> (out: String)
    ensures
        out@ == normalized_mac(mac@),
{
    let upper = mac.to_uppercase();
    dashes_to_colons(upper.as_str())
}

/// The table of real addresses that the mappings give: each IP address bound
/// to its real address in normal form, a later mapping replacing an earlier one.
pub open spec fn corrections(mappings: Seq<MacMapping>) -> Map<Seq<char>, Seq<char>>
    decreases mappings.len(),
{
    if mappings.len() == 0 {
        Map::empty()
    } else {
        corrections(mappings.drop_last()).insert(
            mappings.last().ip@,
            normalized_mac(mappings.last().real_mac@),
        )
    }
}

/// Builds the table of real addresses from the mappings of the manual file.
pub fn mac_corrections(mappings: &Vec<MacMapping>) -> (out: StringMap)
    ensures
        out@ == corrections(mappings@),
{
    let mut out = StringMap::new();
    let mut i: usize = 0;
    assert(mappings@.take(0) =~= Seq::<MacMapping>::empty());
    while i < mappings.len()
        invariant
            i <= mappings.len(),
            out@ == corrections(mappings@.take(i as int)),
        decreases mappings.len() - i,
    {
        proof {
            assert(mappings@.take(i + 1).drop_last() =~= mappings@.take(i as int));
            assert(mappings@.take(i + 1).last() == mappings@[i as int]);
        }
        let mapping = &mappings[i];
        out.insert(mapping.ip.clone(), normalize_mac(mapping.real_mac.as_str()));
        i = i + 1;
    }
    assert(mappings@.take(i as int) =~= mappings@);
    out
}

/// The kind of guest that a resource type stands for in the interface's paths:
/// `lxc` for a container, `qemu` for everything else.
pub fn guest_kind(resource_type: &str) -> (out: &'static str)
    ensures
        out@ == if resource_type@ == "lxc"@ {
            "lxc"@
        } else {
            "qemu"@
        },
{
    let given = to_chars(resource_type);
    let container = to_chars("lxc");
    if chars_equal(&given, &container) {
        "lxc"
    } else {
        "qemu"
    }
}

/// A network interface of a guest.
#[derive(Debug)]
pub struct NetworkInterface {
    pub hwaddr: Option<String>,
    pub name: String,
}

/// A guest's network interface as the rules see it.
pub struct NetworkInterfaceView {
    pub hwaddr: Option<Seq<char>>,
    pub name: Seq<char>,
}

impl View for NetworkInterface {
    type V = NetworkInterfaceView;

    open spec fn view(&self) -> NetworkInterfaceView {
        NetworkInterfaceView { hwaddr: opt_view(self.hwaddr), name: self.name@ }
    }
}

/// The views of a list of interfaces.
pub open spec fn interface_views(interfaces: Seq<NetworkInterface>) -> Seq<NetworkInterfaceView> {
    Seq::new(interfaces.len(), |i: int| interfaces[i]@)
}

/// The name of the `i`-th interface of a guest: `net0` to `net9`.
pub open spec fn net_name(i: int) -> Seq<char> {
    "net"@ + seq![digit_char(i)]
}

/// The interfaces among the first `n` descriptions: one for each description
/// that is there and gives a hardware address, named by its place.
pub open spec fn interfaces_among(nets: Seq<Option<String>>, n: int) -> Seq<NetworkInterfaceView>
    decreases n,
{
    if n <= 0 {
        Seq::empty()
    } else {
        let before = interfaces_among(nets, n - 1);
        let found = if n - 1 < nets.len() {
            match nets[n - 1] {
                Some(config) => hwaddr_in_config(config@),
                None => None,
            }
        } else {
            None
        };
        match found {
            Some(hwaddr) => before.push(
                NetworkInterfaceView { hwaddr: Some(hwaddr), name: net_name(n - 1) },
            ),
            None => before,
        }
    }
}

/// The interfaces that the descriptions `net0` to `net9` of a guest give;
/// `nets[i]` is the description `net<i>`, where the guest has one.
pub fn network_interfaces(nets: &Vec<Option<String>>) -> (out: Vec<NetworkInterface>)
    ensures
        interface_views(out@) == interfaces_among(nets@, 10),
{
    let mut out: Vec<NetworkInterface> = Vec::new();
    let mut i: u8 = 0;
    assert(interface_views(out@) =~= Seq::<NetworkInterfaceView>::empty());
    while i < 10
        invariant
            i <= 10,
            interface_views(out@) == interfaces_among(nets@, i as int),
        decreases 10 - i,
    {
        let ghost before = interface_views(out@);
        if (i as usize) < nets.len() {
            if let Some(config) = &nets[i as usize] {
                if let Some(hwaddr) = parse_hwaddr_from_config(config.as_str()) {
                    let mut name = to_chars("net");
                    name.push((i + 48) as char);
                    assert(name@ =~= net_name(i as int));
                    out.push(NetworkInterface { hwaddr: Some(hwaddr), name: from_chars(&name) });
                    assert(interface_views(out@) =~= before.push(
                        NetworkInterfaceView {
                            hwaddr: hwaddr_in_config(config@),
                            name: net_name(i as int),
                        },
                    ));
                }
            }
        }
        i = i + 1;
    }
    out
}

/// The hardware addresses of the interfaces that have one, in normal form.
pub open spec fn normalized_hwaddrs(interfaces: Seq<NetworkInterfaceView>) -> Seq<Seq<char>>
    decreases interfaces.len(),
{
    if interfaces.len() == 0 {
        Seq::empty()
    } else {
        let before = normalized_hwaddrs(interfaces.drop_last());
        match interfaces.last().hwaddr {
            Some(hwaddr) => before.push(normalized_mac(hwaddr)),
            None => before,
        }
    }
}

/// Adds to `macs` the hardware addresses of a guest's interfaces, in normal form.
pub fn collect_macs(macs: &mut Vec<String>, interfaces: &Vec<NetworkInterface>)
    ensures
        string_views(final(macs)@) == string_views(old(macs)@)
            + normalized_hwaddrs(interface_views(interfaces@)),
{
    let ghost all = interface_views(interfaces@);
    let ghost start = string_views(macs@);
    let mut i: usize = 0;
    proof {
        assert(all.take(0) =~= Seq::<NetworkInterfaceView>::empty());
        assert(start + normalized_hwaddrs(all.take(0)) =~= start);
    }
    while i < interfaces.len()
        invariant
            i <= interfaces.len(),
            all == interface_views(interfaces@),
            string_views(macs@) == start + normalized_hwaddrs(all.take(i as int)),
        decreases interfaces.len() - i,
    {
        let ghost before = string_views(macs@);
        proof {
            assert(all.take(i + 1).drop_last() =~= all.take(i as int));
            assert(all.take(i + 1).last() == interfaces@[i as int]@);
        }
        if let Some(hwaddr) = &interfaces[i].hwaddr {
            macs.push(normalize_mac(hwaddr.as_str()));
            assert(string_views(macs@) =~= before.push(normalized_mac(hwaddr@)));
        }
        i = i + 1;
    }
    assert(all.take(i as int) =~= all);
}

} // verus!
