//! A device on the subnet, its presence status, and the validity of its addresses.

use crate::ipv4::Ipv4;
use crate::text::{char_is_hex_digit, free_of, is_hex_digit, join, lemma_split_join,
    lemma_split_of_join, opt_view, split, to_chars};
use vstd::prelude::*;
use vstd::string::StringExecFns;

verus! {

/// Presence of a device: answering, silent for too long, or blacklisted.
#[derive(Clone, Copy, Debug, PartialEq, Eq, Structural)]
pub enum DeviceStatus {
    Online,
    Offline,
    Block,
}

impl DeviceStatus {
    /// The name of the status, as it is written in stored records and tables.
    pub open spec fn name(self) -> Seq<char> {
        match self {
            DeviceStatus::Online => "Online"@,
            DeviceStatus::Offline => "Offline"@,
            DeviceStatus::Block => "Block"@,
        }
    }

    /// The name of the status.
    pub fn to_string(&self) -> (out: String)
        ensures
            out@ == self.name(),
    {
        match self {
            DeviceStatus::Online => String::from_str("Online"),
            DeviceStatus::Offline => String::from_str("Offline"),
            DeviceStatus::Block => String::from_str("Block"),
        }
    }
}

/// A point in time: whole seconds since the Unix epoch and the nanoseconds
/// that follow them.
#[derive(Clone, Copy, Debug, PartialEq, Eq, Structural)]
pub struct Timestamp {
    pub secs: i64,
    pub nanos: u32,
}

impl Timestamp {
    /// Nanoseconds since the Unix epoch.
    pub open spec fn total_nanos(self) -> int {
        self.secs as int * 1_000_000_000 + self.nanos as int
    }

    /// The point in time `nanos` nanoseconds after `secs` seconds since the epoch.
    pub fn new(secs: i64, nanos: u32) -> (t: Timestamp)
        ensures
            t == (Timestamp { secs, nanos }),
    {
        Timestamp { secs, nanos }
    }

    /// Nanoseconds from `earlier` to `self`; negative when `self` is the earlier one.
    pub fn nanos_since(&self, earlier: &Timestamp) -> (out: i128)
        ensures
            out == self.total_nanos() - earlier.total_nanos(),
    {
        let a: i128 = self.secs as i128 * 1_000_000_000 + self.nanos as i128;
        let b: i128 = earlier.secs as i128 * 1_000_000_000 + earlier.nanos as i128;
        a - b
    }

    /// Whether `self` is later than `other`.
    pub fn is_after(&self, other: &Timestamp) -> (out: bool)
        ensures
            out == (self.total_nanos() > other.total_nanos()),
    {
        self.nanos_since(other) > 0
    }
}

/// `chrono::Utc::now`, read through `timestamp` and `timestamp_subsec_nanos`.
/// The value depends on the system clock, so nothing is claimed of it; the call
/// panics if that clock stands before 1970.
#[verifier::external_body]
fn clock_now() -> (t: Timestamp) {
    let now = chrono::Utc::now();
    Timestamp { secs: now.timestamp(), nanos: now.timestamp_subsec_nanos() }
}

/// A MAC address in text: six groups of two hexadecimal digits, with a colon
/// between neighbours.
pub open spec fn is_mac_text(s: Seq<char>) -> bool {
    &&& s.len() == 17
    &&& forall|i: int| 0 <= i < 17 ==> mac_char_fits(i, #[trigger] s[i])
}

/// What stands at position `i` of a MAC address: a colon after every two
/// digits, a hexadecimal digit elsewhere.
pub open spec fn mac_char_fits(i: int, c: char) -> bool {
    if i % 3 == 2 {
        c == ':'
    } else {
        is_hex_digit(c)
    }
}

/// A group of exactly two hexadecimal digits.
pub open spec fn is_hex_pair(group: Seq<char>) -> bool {
    group.len() == 2 && is_hex_digit(group[0]) && is_hex_digit(group[1])
}

/// Six pieces joined by colons, written out.
pub proof fn lemma_join_six(pieces: Seq<Seq<char>>)
    requires
        pieces.len() == 6,
    ensures
        join(pieces, ':') == pieces[0] + seq![':'] + pieces[1] + seq![':'] + pieces[2] + seq![':']
            + pieces[3] + seq![':'] + pieces[4] + seq![':'] + pieces[5],
{
    let p5 = pieces.drop_last();
    let p4 = p5.drop_last();
    let p3 = p4.drop_last();
    let p2 = p3.drop_last();
    let p1 = p2.drop_last();
    assert(join(p1, ':') == pieces[0]);
    assert(join(p2, ':') =~= pieces[0] + seq![':'] + pieces[1]);
    assert(join(p3, ':') =~= join(p2, ':') + seq![':'] + pieces[2]);
    assert(join(p4, ':') =~= join(p3, ':') + seq![':'] + pieces[3]);
    assert(join(p5, ':') =~= join(p4, ':') + seq![':'] + pieces[4]);
    assert(join(pieces, ':') =~= join(p5, ':') + seq![':'] + pieces[5]);
}

/// A text is a MAC address exactly if its colons part it into six groups of
/// two hexadecimal digits each.
pub proof fn lemma_mac_text_groups(s: Seq<char>)
    ensures
        is_mac_text(s) <==> (split(s, ':').len() == 6 && forall|k: int|
            0 <= k < 6 ==> is_hex_pair(#[trigger] split(s, ':')[k])),
{
    lemma_split_join(s, ':');
    let pieces = split(s, ':');
    if is_mac_text(s) {
        let groups = Seq::new(6, |k: int| s.subrange(3 * k, 3 * k + 2));
        assert forall|k: int| 0 <= k < 6 implies free_of(#[trigger] groups[k], ':') && is_hex_pair(
            groups[k],
        ) by {
            assert(mac_char_fits(3 * k, s[3 * k]));
            assert(mac_char_fits(3 * k + 1, s[3 * k + 1]));
            assert(groups[k][0] == s[3 * k] && groups[k][1] == s[3 * k + 1]);
        }
        lemma_join_six(groups);
        assert(join(groups, ':') =~= s) by {
            assert(mac_char_fits(2, s[2]) && mac_char_fits(5, s[5]) && mac_char_fits(8, s[8])
                && mac_char_fits(11, s[11]) && mac_char_fits(14, s[14]));
        }
        lemma_split_of_join(groups, ':');
        assert(pieces == groups);
    }
    if pieces.len() == 6 && (forall|k: int| 0 <= k < 6 ==> is_hex_pair(#[trigger] pieces[k])) {
        lemma_join_six(pieces);
        assert(is_hex_pair(pieces[0]) && is_hex_pair(pieces[1]) && is_hex_pair(pieces[2])
            && is_hex_pair(pieces[3]) && is_hex_pair(pieces[4]) && is_hex_pair(pieces[5]));
        assert(s.len() == 17);
        assert forall|i: int| 0 <= i < 17 implies mac_char_fits(i, #[trigger] s[i]) by {
            let k = i / 3;
            if i % 3 == 2 {
                assert(s[i] == ':');
            } else {
                assert(s[i] == pieces[k][i % 3]);
            }
        }
    }
}

/// The dotted-decimal text of some IPv4 address.
pub open spec fn is_ipv4_text(s: Seq<char>) -> bool {
    exists|ip: Ipv4| s == #[trigger] ip.text()
}

/// A device as the rules see it: every string by its characters.
pub struct DeviceView {
    pub mac: Seq<char>,
    pub ip: Seq<char>,
    pub hostname: Option<Seq<char>>,
    pub vendor: Option<Seq<char>>,
    pub last_seen: Timestamp,
    pub status: DeviceStatus,
    pub virtual_mac: Option<Seq<char>>,
}

impl DeviceView {
    /// Both addresses are well formed.
    pub open spec fn valid(self) -> bool {
        is_ipv4_text(self.ip) && is_mac_text(self.mac)
    }
}

/// One device of the subnet, keyed by its IP address.
#[derive(Debug)]
pub struct Device {
    pub mac: String,
    pub ip: String,
    pub hostname: Option<String>,
    pub vendor: Option<String>,
    pub last_seen: Timestamp,
    pub status: DeviceStatus,
    /// The address seen on the wire, where it differs from the real one or is
    /// known to belong to a virtualization layer.
    pub virtual_mac: Option<String>,
}

impl View for Device {
    type V = DeviceView;

    open spec fn view(&self) -> DeviceView {
        DeviceView {
            mac: self.mac@,
            ip: self.ip@,
            hostname: opt_view(self.hostname),
            vendor: opt_view(self.vendor),
            last_seen: self.last_seen,
            status: self.status,
            virtual_mac: opt_view(self.virtual_mac),
        }
    }
}

impl Clone for Device {
    fn clone(&self) -> (out: Device)
        ensures
            out == *self,
    {
        Device {
            mac: self.mac.clone(),
            ip: self.ip.clone(),
            hostname: self.hostname.clone(),
            vendor: self.vendor.clone(),
            last_seen: self.last_seen,
            status: self.status,
            virtual_mac: self.virtual_mac.clone(),
        }
    }
}

impl Device {
    /// A device first seen at `at`: online, with no virtual address.
    pub fn seen_at(
        mac: String,
        ip: String,
        hostname: Option<String>,
        vendor: Option<String>,
        at: Timestamp,
    ) -> (out: Device)
        ensures
            out == (Device {
                mac,
                ip,
                hostname,
                vendor,
                last_seen: at,
                status: DeviceStatus::Online,
                virtual_mac: None,
            }),
    {
        Device { mac, ip, hostname, vendor, last_seen: at, status: DeviceStatus::Online, virtual_mac: None }
    }

    /// A device seen just now: as `seen_at` with the reading of the system clock,
    /// whatever that is.
    pub fn new(mac: String, ip: String, hostname: Option<String>, vendor: Option<String>) -> (out:
        Device)
        ensures
            out == (Device {
                mac,
                ip,
                hostname,
                vendor,
                last_seen: out.last_seen,
                status: DeviceStatus::Online,
                virtual_mac: None,
            }),
    {
        let at = clock_now();
        Device::seen_at(mac, ip, hostname, vendor, at)
    }

    /// Whether `ip` is the dotted-decimal text of an IPv4 address.
    pub fn is_valid_ip(ip: &str) -> (out: bool)
        ensures
            out == is_ipv4_text(ip@),
    {
        Ipv4::parse(ip).is_some()
    }

    /// Whether `mac` is six colon-separated groups of two hexadecimal digits.
    pub fn is_valid_mac(mac: &str) -> (out: bool)
        ensures
            out == is_mac_text(mac@),
    {
        let chars = to_chars(mac);
        if chars.len() != 17 {
            return false;
        }
        let mut i: usize = 0;
        while i < 17
            invariant
                i <= 17,
                chars@.len() == 17,
                chars@ == mac@,
                forall|k: int| 0 <= k < i ==> mac_char_fits(k, #[trigger] chars@[k]),
            decreases 17 - i,
        {
            let c = chars[i];
            let good = if i % 3 == 2 {
                c == ':'
            } else {
                char_is_hex_digit(c)
            };
            if !good {
                assert(!mac_char_fits(i as int, chars@[i as int]));
                return false;
            }
            i = i + 1;
        }
        true
    }

    /// Whether both addresses of the device are well formed.
    pub fn validate(&self) -> (out: bool)
        ensures
            out == self@.valid(),
    {
        let ip_valid = Device::is_valid_ip(self.ip.as_str());
        let mac_valid = Device::is_valid_mac(self.mac.as_str());
        ip_valid && mac_valid
    }
}

} // verus!
