//! Vendor names by the first three octets of a MAC address.

use crate::text::{char_hex_value, chars_contain, contains, hex_value, lowercase, opt_view,
    read_hex_u8, replace_char, replace_in_chars, split, split_chars, to_chars, u8_of, uppercase};
use std::collections::HashMap;
use vstd::prelude::*;
use vstd::string::StringExecFns;

verus! {

broadcast use vstd::std_specs::hash::group_hash_axioms;

/// The registered address prefixes, each with its vendor. A prefix may stand
/// twice: the later entry is the one that counts.
pub const OUI_TABLE: [(u32, &'static str); 117] = [
    // Virtualization / Cloud Vendors
    (0x00155D, "Microsoft Hyper-V"),
    (0x005056, "VMware"),
    (0x000C29, "VMware"),
    (0x000569, "VMware"),
    (0x001C14, "VMware"),
    (0x525400, "QEMU/KVM Virtual NIC"),
    (0xBC2411, "Proxmox Virtual Machine"),
    (0x00163E, "Xen Virtual Machine"),
    (0x080027, "Oracle VirtualBox"),
    (0x0021F6, "Oracle VirtualBox"),
    // Network Equipment Vendors
    (0x00000C, "Cisco Systems"),
    (0x000142, "Cisco Systems"),
    (0x000143, "Cisco Systems"),
    (0x000196, "Cisco Systems"),
    (0x000197, "Cisco Systems"),
    (0x0001C7, "Cisco Systems"),
    (0x00023D, "Cisco Systems"),
    (0x00024A, "Cisco Systems"),
    (0x00024B, "Cisco Systems"),
    (0x0050F2, "Microsoft Corporation"),
    (0xACDE48, "Ubiquiti Networks"),
    (0xDC9FDB, "Ubiquiti Networks"),
    (0xF09FC2, "Ubiquiti Networks"),
    (0x68D79A, "Ubiquiti Networks"),
    (0x24A43C, "Ubiquiti Networks"),
    (0xE43883, "TP-Link"),
    (0x98DED0, "TP-Link"),
    (0x50C7BF, "TP-Link"),
    (0xA42BB0, "TP-Link"),
    // Computer Manufacturers
    (0x0050B6, "Dell"),
    (0x001422, "Dell"),
    (0xD4BED9, "Dell"),
    (0xD067E5, "Dell"),
    (0x180373, "Dell"),
    (0x001B21, "Dell"),
    (0x0015C5, "Dell"),
    (0xB8CA3A, "Dell"),
    (0x3CD92B, "Hewlett Packard"),
    (0x001F29, "Hewlett Packard"),
    (0x001E0B, "Hewlett Packard"),
    (0x002481, "Hewlett Packard"),
    (0x002655, "Hewlett Packard"),
    (0xD48564, "Hewlett Packard"),
    (0xECB1D7, "Hewlett Packard"),
    (0x000393, "Apple"),
    (0x000502, "Apple"),
    (0x000A27, "Apple"),
    (0x000A95, "Apple"),
    (0x000D93, "Apple"),
    (0x0016CB, "Apple"),
    (0x0017F2, "Apple"),
    (0x0019E3, "Apple"),
    (0x001B63, "Apple"),
    (0x001CB3, "Apple"),
    (0x001D4F, "Apple"),
    (0x001E52, "Apple"),
    (0x001F5B, "Apple"),
    (0x001FF3, "Apple"),
    (0x0021E9, "Apple"),
    (0x002241, "Apple"),
    (0x002312, "Apple"),
    (0x002332, "Apple"),
    (0x00236C, "Apple"),
    (0x0023DF, "Apple"),
    (0x002436, "Apple"),
    (0x002500, "Apple"),
    (0x00254B, "Apple"),
    (0x0025BC, "Apple"),
    (0x002608, "Apple"),
    (0x00264A, "Apple"),
    (0x0026B0, "Apple"),
    (0x0026BB, "Apple"),
    (0x040CCE, "Apple"),
    (0x041552, "Apple"),
    (0x0C3E9F, "Apple"),
    (0x10DDB1, "Apple"),
    (0x18E7F4, "Apple"),
    (0x28CFE9, "Apple"),
    (0x30055C, "Lenovo"),
    (0x0021CC, "Lenovo"),
    (0x001F16, "Lenovo"),
    (0x54EE75, "Lenovo"),
    (0xB8AC6F, "Lenovo"),
    // Network Interface Manufacturers
    (0x00E04C, "Realtek"),
    (0x000C76, "Realtek"),
    (0x525400, "Realtek (or QEMU)"),
    (0xD80D17, "Realtek"),
    (0xE86A64, "Realtek"),
    (0x00133B, "Intel"),
    (0x001517, "Intel"),
    (0x001B21, "Intel"),
    (0x001E67, "Intel"),
    (0x00215C, "Intel"),
    (0x002315, "Intel"),
    (0x002564, "Intel"),
    (0x685B35, "Intel"),
    (0xD09466, "Intel"),
    (0x0060B0, "Hewlett Packard"),
    (0x00110A, "Hewlett Packard"),
    (0x001560, "Hewlett Packard"),
    (0x0017A4, "Hewlett Packard"),
    (0x001A4B, "Hewlett Packard"),
    (0x001E0B, "Hewlett Packard"),
    (0x00215A, "Hewlett Packard"),
    (0x00237D, "Hewlett Packard"),
    (0x0025B3, "Hewlett Packard"),
    (0x002655, "Hewlett Packard"),
    // Raspberry Pi
    (0xB827EB, "Raspberry Pi"),
    (0xDCA632, "Raspberry Pi"),
    (0xE45F01, "Raspberry Pi"),
    // Common Routers
    (0x242FD0, "Intelbras"),
    (0x641C67, "Intelbras"),
    (0xB01921, "Intelbras"),
    (0xCA4E2B, "Unknown (Private/Virtual)"),
    // Android/Samsung
    (0x985AEB, "Samsung Electronics"),
    (0x8C3BAD, "Samsung Electronics"),
    (0x44070B, "Samsung Electronics"),
];

/// The vendor that the last entry for `oui` in `table` names.
pub open spec fn last_match(table: Seq<(u32, &'static str)>, oui: u32) -> Option<Seq<char>>
    decreases table.len(),
{
    if table.len() == 0 {
        None
    } else if table.last().0 == oui {
        Some(table.last().1@)
    } else {
        last_match(table.drop_last(), oui)
    }
}

/// The vendor registered for a 24-bit address prefix, if there is one.
pub open spec fn oui_vendor(oui: u32) -> Option<Seq<char>> {
    last_match(OUI_TABLE@, oui)
}

/// What a map from prefixes to names holds for `oui`.
pub open spec fn entry(map: Map<u32, &'static str>, oui: u32) -> Option<Seq<char>> {
    if map.contains_key(oui) {
        Some(map[oui]@)
    } else {
        None
    }
}

/// An upper-case hexadecimal digit.
pub open spec fn is_upper_hex(c: char) -> bool {
    ('0' <= c <= '9') || ('A' <= c <= 'F')
}

/// The octet that a group of exactly two upper-case hexadecimal digits writes.
pub open spec fn octet_of_pair(group: Seq<char>) -> Option<int> {
    if group.len() == 2 && is_upper_hex(group[0]) && is_upper_hex(group[1]) {
        Some(hex_value(group[0]) * 16 + hex_value(group[1]))
    } else {
        None
    }
}

/// The 24-bit prefix that the first three groups write, if each is such a pair.
pub open spec fn oui_of(first: Seq<char>, second: Seq<char>, third: Seq<char>) -> Option<u32> {
    match (octet_of_pair(first), octet_of_pair(second), octet_of_pair(third)) {
        (Some(a), Some(b), Some(c)) => Some((a * 65536 + b * 256 + c) as u32),
        _ => None,
    }
}

/// The vendor of an address whose letters are already in upper case: dashes
/// count as colons; the first three groups are looked up in the table; an
/// address outside the table whose first octet has the locally-administered bit
/// set is a private one.
pub open spec fn vendor_of_upper(upper: Seq<char>) -> Option<Seq<char>> {
    let groups = split(replace_char(upper, '-', ':'), ':');
    if groups.len() < 3 {
        None
    } else {
        let registered = match oui_of(groups[0], groups[1], groups[2]) {
            Some(oui) => oui_vendor(oui),
            None => None,
        };
        if registered is Some {
            registered
        } else {
            match u8_of(groups[0], 16) {
                Some(first) => if first & 0x02 != 0 {
                    Some("Virtual/Private MAC"@)
                } else {
                    None
                },
                None => None,
            }
        }
    }
}

/// The vendor of a MAC address written in either case.
pub open spec fn vendor_of(mac: Seq<char>) -> Option<Seq<char>> {
    vendor_of_upper(uppercase(mac))
}

/// Whether a vendor name, already in lower case, is that of a virtualization
/// layer or of a private address.
pub open spec fn names_virtual(vendor_lower: Seq<char>) -> bool {
    ||| contains(vendor_lower, "virtual"@)
    ||| contains(vendor_lower, "vmware"@)
    ||| contains(vendor_lower, "qemu"@)
    ||| contains(vendor_lower, "kvm"@)
    ||| contains(vendor_lower, "proxmox"@)
    ||| contains(vendor_lower, "hyper-v"@)
    ||| contains(vendor_lower, "xen"@)
    ||| contains(vendor_lower, "virtualbox"@)
    ||| contains(vendor_lower, "private"@)
}

/// Whether the vendor of a MAC address marks it as virtual.
pub open spec fn is_virtual_mac(mac: Seq<char>) -> bool {
    match vendor_of(mac) {
        Some(vendor) => names_virtual(lowercase(vendor)),
        None => false,
    }
}

fn pair_octet(group: &Vec<char>) -> (out: Option<u8>)
    ensures
        match out {
            Some(v) => octet_of_pair(group@) == Some(v as int),
            None => octet_of_pair(group@) is None,
        },
{
    if group.len() != 2 {
        return None;
    }
    let hi = group[0];
    let lo = group[1];
    let hi_fits = ('0' <= hi && hi <= '9') || ('A' <= hi && hi <= 'F');
    let lo_fits = ('0' <= lo && lo <= '9') || ('A' <= lo && lo <= 'F');
    if hi_fits && lo_fits {
        Some(char_hex_value(hi) * 16 + char_hex_value(lo))
    } else {
        None
    }
}

fn oui_key(first: &Vec<char>, second: &Vec<char>, third: &Vec<char>) -> (out: Option<u32>)
    ensures
        out == oui_of(first@, second@, third@),
{
    match (pair_octet(first), pair_octet(second), pair_octet(third)) {
        (Some(a), Some(b), Some(c)) => Some(a as u32 * 65536 + b as u32 * 256 + c as u32),
        _ => None,
    }
}

/// Whether a vendor name, already in lower case, is that of a virtualization
/// layer or of a private address.
pub fn vendor_names_virtual(vendor_lower: &str) -> (out: bool)
    ensures
        out == names_virtual(vendor_lower@),
{
    let name = to_chars(vendor_lower);
    chars_contain(&name, &to_chars("virtual")) || chars_contain(&name, &to_chars("vmware"))
        || chars_contain(&name, &to_chars("qemu")) || chars_contain(&name, &to_chars("kvm"))
        || chars_contain(&name, &to_chars("proxmox")) || chars_contain(
        &name,
        &to_chars("hyper-v"),
    ) || chars_contain(&name, &to_chars("xen")) || chars_contain(&name, &to_chars("virtualbox"))
        || chars_contain(&name, &to_chars("private"))
}

/// The table of vendors by address prefix.
pub struct VendorDb {
    oui_map: HashMap<u32, &'static str>,
}

impl VendorDb {
    /// The map holds exactly the registered prefixes, each with its vendor.
    #[verifier::type_invariant]
    spec fn holds_table(self) -> bool {
        forall|oui: u32| #[trigger] entry(self.oui_map@, oui) == oui_vendor(oui)
    }

    /// What the table holds for a prefix.
    pub closed spec fn registered(&self, oui: u32) -> Option<Seq<char>> {
        entry(self.oui_map@, oui)
    }

    /// The table as it is built in: every entry of `OUI_TABLE` is entered, in order.
    pub fn new() -> (db: VendorDb)
        ensures
            forall|oui: u32| #[trigger] db.registered(oui) == oui_vendor(oui),
    {
        let mut oui_map: HashMap<u32, &'static str> = HashMap::new();
        let mut i: usize = 0;
        while i < OUI_TABLE.len()
            invariant
                i <= OUI_TABLE@.len(),
                forall|oui: u32|
                    #[trigger] entry(oui_map@, oui) == last_match(OUI_TABLE@.take(i as int), oui),
            decreases OUI_TABLE@.len() - i,
        {
            let (oui, name) = OUI_TABLE[i];
            let ghost before = oui_map@;
            oui_map.insert(oui, name);
            proof {
                let grown = OUI_TABLE@.take(i + 1);
                assert(grown.drop_last() =~= OUI_TABLE@.take(i as int));
                assert(grown.last() == (oui, name));
                assert forall|k: u32| #[trigger]
                    entry(oui_map@, k) == last_match(grown, k) by {
                    assert(entry(before, k) == last_match(OUI_TABLE@.take(i as int), k));
                }
            }
            i = i + 1;
        }
        assert(OUI_TABLE@.take(i as int) =~= OUI_TABLE@);
        VendorDb { oui_map }
    }

    /// The vendor of an address whose letters are already in upper case.
    pub fn lookup_upper(&self, upper: &str) -> (out: Option<String>)
        ensures
            opt_view(out) == vendor_of_upper(upper@),
    {
        proof {
            use_type_invariant(self);
        }
        let chars = to_chars(upper);
        let normalized = replace_in_chars(&chars, '-', ':');
        let groups = split_chars(&normalized, ':');
        if groups.len() < 3 {
            return None;
        }
        let ghost pieces = split(replace_char(upper@, '-', ':'), ':');
        assert(pieces[0] == groups@[0]@ && pieces[1] == groups@[1]@ && pieces[2] == groups@[2]@);
        if let Some(key) = oui_key(&groups[0], &groups[1], &groups[2]) {
            assert(entry(self.oui_map@, key) == oui_vendor(key));
            if let Some(vendor) = self.oui_map.get(&key) {
                return Some(String::from_str(*vendor));
            }
        }
        if let Some(first) = read_hex_u8(&groups[0]) {
            if first & 0x02 != 0 {
                return Some(String::from_str("Virtual/Private MAC"));
            }
        }
        None
    }

    /// The vendor of a MAC address: its letters are put in upper case, then the
    /// table is asked.
    pub fn lookup(&self, mac: &str) -> (out: Option<String>)
        ensures
            opt_view(out) == vendor_of(mac@),
    {
        let upper = mac.to_uppercase();
        self.lookup_upper(upper.as_str())
    }

    /// Whether the address appears to belong to a virtual machine: its vendor,
    /// in lower case, names a virtualization layer or a private address.
    pub fn is_virtual(&self, mac: &str) -> (out: bool)
        ensures
            out == is_virtual_mac(mac@),
    {
        match self.lookup(mac) {
            Some(vendor) => {
                let vendor_lower = vendor.as_str().to_lowercase();
                vendor_names_virtual(vendor_lower.as_str())
            },
            None => false,
        }
    }
}

impl Default for VendorDb {
    fn default() -> (db: VendorDb)
        ensures
            forall|oui: u32| #[trigger] db.registered(oui) == oui_vendor(oui),
    {
        VendorDb::new()
    }
}

} // verus!
