//! The ARP side of a scan: the request frame, the replies that count, the
//! devices they stand for, and the interface to scan from.

use crate::ipv4::Ipv4;
use crate::models::{is_mac_text, mac_char_fits, Device, DeviceStatus, Timestamp};
use crate::monitor::device_views;
use crate::text::opt_view;
use crate::vendor::{vendor_of, VendorDb};
use vstd::prelude::*;

verus! {

/// The four octets of an address, in the order of the wire.
pub open spec fn octets_of(ip: Ipv4) -> Seq<u8> {
    seq![ip.a, ip.b, ip.c, ip.d]
}

/// The Ethernet frame that asks who has `target_ip`: sent to all stations from
/// `source_mac`, of type ARP; in it a request for Ethernet and IPv4 addresses of
/// six and four octets, from the sender's two addresses to an unknown hardware
/// address at the target's IP address.
pub open spec fn arp_request(source_mac: Seq<u8>, source_ip: Ipv4, target_ip: Ipv4) -> Seq<u8> {
    Seq::new(6, |i: int| 0xffu8) + source_mac + seq![0x08u8, 0x06u8] + seq![
        0x00u8,
        0x01u8,
        0x08u8,
        0x00u8,
        0x06u8,
        0x04u8,
        0x00u8,
        0x01u8,
    ] + source_mac + octets_of(source_ip) + Seq::new(6, |i: int| 0x00u8) + octets_of(target_ip)
}

fn push_all(frame: &mut Vec<u8>, bytes: &[u8])
    ensures
        final(frame)@ == old(frame)@ + bytes@,
{
    let mut i: usize = 0;
    while i < bytes.len()
        invariant
            i <= bytes.len(),
            frame@ == old(frame)@ + bytes@.take(i as int),
        decreases bytes.len() - i,
    {
        frame.push(bytes[i]);
        assert(frame@ =~= old(frame)@ + bytes@.take(i + 1));
        i = i + 1;
    }
    assert(bytes@.take(i as int) =~= bytes@);
}

fn push_times(frame: &mut Vec<u8>, byte: u8, times: usize)
    ensures
        final(frame)@ == old(frame)@ + Seq::new(times as nat, |i: int| byte),
{
    let mut i: usize = 0;
    while i < times
        invariant
            i <= times,
            frame@ == old(frame)@ + Seq::new(i as nat, |k: int| byte),
        decreases times - i,
    {
        frame.push(byte);
        assert(frame@ =~= old(frame)@ + Seq::new((i + 1) as nat, |k: int| byte));
        i = i + 1;
    }
}

/// Builds the frame that asks who has `target_ip`: 42 octets.
pub fn build_arp_request(source_mac: &[u8; 6], source_ip: Ipv4, target_ip: Ipv4) -> (frame: Vec<u8>)
    ensures
        frame@ == arp_request(source_mac@, source_ip, target_ip),
        frame.len() == 42,
{
    let mut frame: Vec<u8> = Vec::new();
    push_times(&mut frame, 0xff, 6);
    push_all(&mut frame, source_mac.as_slice());
    frame.push(0x08);
    frame.push(0x06);
    let ghost head = frame@;
    assert(head =~= Seq::new(6, |i: int| 0xffu8) + source_mac@ + seq![0x08u8, 0x06u8]);
    frame.push(0x00);
    frame.push(0x01);
    frame.push(0x08);
    frame.push(0x00);
    frame.push(0x06);
    frame.push(0x04);
    frame.push(0x00);
    frame.push(0x01);
    assert(frame@ =~= head + seq![
        0x00u8,
        0x01u8,
        0x08u8,
        0x00u8,
        0x06u8,
        0x04u8,
        0x00u8,
        0x01u8,
    ]);
    push_all(&mut frame, source_mac.as_slice());
    push_all(&mut frame, source_ip.octets().as_slice());
    push_times(&mut frame, 0x00, 6);
    push_all(&mut frame, target_ip.octets().as_slice());
    frame
}

/// What an ARP reply tells: the hardware and the IP address of its sender.
#[derive(Clone, Copy, Debug, PartialEq, Eq)]
pub struct ArpReply {
    pub sender_mac: [u8; 6],
    pub sender_ip: Ipv4,
}

/// Whether a frame is an ARP reply addressed to `own_ip`: long enough for an
/// Ethernet header and an ARP packet, of type ARP, with the operation "reply"
/// and `own_ip` as the target's IP address.
pub open spec fn is_reply_for(frame: Seq<u8>, own_ip: Ipv4) -> bool {
    &&& frame.len() >= 42
    &&& frame[12] == 0x08 && frame[13] == 0x06
    &&& frame[20] == 0x00 && frame[21] == 0x02
    &&& frame.subrange(38, 42) == octets_of(own_ip)
}

/// The sender's hardware address in a reply.
pub open spec fn reply_mac(frame: Seq<u8>) -> Seq<u8> {
    frame.subrange(22, 28)
}

/// The sender's IP address in a reply.
pub open spec fn reply_ip(frame: Seq<u8>) -> Ipv4 {
    Ipv4 { a: frame[28], b: frame[29], c: frame[30], d: frame[31] }
}

/// Reads a captured frame: `Some` exactly for an ARP reply addressed to `own_ip`.
pub fn parse_arp_reply(frame: &[u8], own_ip: Ipv4) -> (out: Option<ArpReply>)
    ensures
        match out {
            Some(reply) => is_reply_for(frame@, own_ip) && reply.sender_mac@ == reply_mac(frame@)
                && reply.sender_ip == reply_ip(frame@),
            None => !is_reply_for(frame@, own_ip),
        },
{
    if frame.len() < 42 {
        return None;
    }
    if frame[12] != 0x08 || frame[13] != 0x06 {
        return None;
    }
    if frame[20] != 0x00 || frame[21] != 0x02 {
        return None;
    }
    if frame[38] != own_ip.a || frame[39] != own_ip.b || frame[40] != own_ip.c || frame[41]
        != own_ip.d {
        assert(frame@.subrange(38, 42)[0] == frame@[38]);
        assert(frame@.subrange(38, 42)[1] == frame@[39]);
        assert(frame@.subrange(38, 42)[2] == frame@[40]);
        assert(frame@.subrange(38, 42)[3] == frame@[41]);
        return None;
    }
    assert(frame@.subrange(38, 42) =~= octets_of(own_ip));
    let sender_mac = [frame[22], frame[23], frame[24], frame[25], frame[26], frame[27]];
    assert(sender_mac@ =~= reply_mac(frame@));
    let sender_ip = Ipv4::new(frame[28], frame[29], frame[30], frame[31]);
    Some(ArpReply { sender_mac, sender_ip })
}

/// The lower-case hexadecimal digit of `n < 16`.
pub open spec fn lower_hex_digit(n: int) -> char {
    if n < 10 {
        ((n + 48) as u8) as char
    } else {
        ((n + 87) as u8) as char
    }
}

/// A hardware address in text: each octet as two lower-case hexadecimal digits,
/// with a colon between neighbours.
pub open spec fn mac_text(mac: Seq<u8>) -> Seq<char> {
    Seq::new(
        17,
        |i: int|
            if i % 3 == 2 {
                ':'
            } else if i % 3 == 0 {
                lower_hex_digit(mac[i / 3] as int / 16)
            } else {
                lower_hex_digit(mac[i / 3] as int % 16)
            },
    )
}

/// The text of a hardware address is a valid MAC address.
pub proof fn lemma_mac_text_valid(mac: Seq<u8>)
    requires
        mac.len() == 6,
    ensures
        is_mac_text(mac_text(mac)),
{
    let text = mac_text(mac);
    assert forall|i: int| 0 <= i < 17 implies mac_char_fits(i, #[trigger] text[i]) by {
        let octet = mac[i / 3] as int;
        assert(0 <= octet / 16 < 16 && 0 <= octet % 16 < 16);
    }
}

/// `pnet::util::MacAddr::new` and the text that its `Display` writes: the six
/// octets in order, each as two lower-case hexadecimal digits, colons between.
#[verifier::external_body]
fn mac_to_string(mac: &[u8; 6]) -> (out: String)
    ensures
        out@ == mac_text(mac@),
{
    pnet::util::MacAddr::new(mac[0], mac[1], mac[2], mac[3], mac[4], mac[5]).to_string()
}

/// The text of a hardware address.
pub fn format_mac(mac: &[u8; 6]) -> (out: String)
    ensures
        out@ == mac_text(mac@),
        is_mac_text(out@),
{
    proof {
        lemma_mac_text_valid(mac@);
    }
    mac_to_string(mac)
}

/// The device that a reply stands for, seen at `at`: its addresses in text,
/// the vendor of its hardware address, online, no host name yet.
pub fn device_of_reply(reply: &ArpReply, vendors: &VendorDb, at: Timestamp) -> (out: Device)
    ensures
        out@.mac == mac_text(reply.sender_mac@),
        out@.ip == reply.sender_ip.text(),
        out@.hostname is None,
        out@.vendor == vendor_of(mac_text(reply.sender_mac@)),
        out@.last_seen == at,
        out@.status == DeviceStatus::Online,
        out@.virtual_mac is None,
        out@.valid(),
{
    let mac = format_mac(&reply.sender_mac);
    let vendor = vendors.lookup(mac.as_str());
    let ip = reply.sender_ip.to_text();
    Device::seen_at(mac, ip, None, vendor, at)
}

/// Some device of the list has the hardware address `mac`.
pub open spec fn has_mac(devices: Seq<Device>, mac: Seq<char>) -> bool {
    exists|i: int| 0 <= i < devices.len() && (#[trigger] devices[i]).mac@ == mac
}

/// No two devices of the list share a hardware address.
pub open spec fn distinct_macs(devices: Seq<Device>) -> bool {
    forall|i: int, j: int|
        0 <= i < j < devices.len() ==> (#[trigger] devices[i]).mac@ != (#[trigger] devices[j]).mac@
}

/// Notes a device of this run unless one with its hardware address is noted
/// already; tells whether it was new. A list without repeated hardware
/// addresses stays one.
pub fn record_device(devices: &mut Vec<Device>, device: Device) -> (added: bool)
    ensures
        added == !has_mac(old(devices)@, device.mac@),
        final(devices)@ == if added {
            old(devices)@.push(device)
        } else {
            old(devices)@
        },
        distinct_macs(old(devices)@) ==> distinct_macs(final(devices)@),
{
    let mut i: usize = 0;
    while i < devices.len()
        invariant
            i <= devices.len(),
            devices@ == old(devices)@,
            forall|k: int| 0 <= k < i ==> (#[trigger] devices@[k]).mac@ != device.mac@,
        decreases devices.len() - i,
    {
        if devices[i].mac == device.mac {
            return false;
        }
        i = i + 1;
    }
    devices.push(device);
    true
}

/// An address of a network interface, as far as a scan cares.
#[derive(Clone, Copy, Debug, PartialEq, Eq)]
pub enum InterfaceAddress {
    V4(Ipv4),
    Other,
}

/// What the system tells of a network interface.
#[derive(Debug)]
pub struct InterfaceInfo {
    pub name: String,
    pub is_loopback: bool,
    pub is_up: bool,
    pub mac: Option<[u8; 6]>,
    pub ips: Vec<InterfaceAddress>,
}

/// Why no scan could start.
#[derive(Clone, Copy, Debug, PartialEq, Eq, Structural)]
pub enum ScanError {
    /// No interface has the name asked for.
    InterfaceNotFound,
    /// No interface is up, off the loopback, and has both addresses.
    NoSuitableInterface,
    /// The interface has no hardware address.
    NoMacAddress,
    /// The interface has no IPv4 address.
    NoIpv4Address,
}

/// Where a scan is sent from: the place of the interface in the list, and its
/// two addresses.
#[derive(Clone, Copy, Debug, PartialEq, Eq)]
pub struct ScanSource {
    pub index: usize,
    pub mac: [u8; 6],
    pub ip: Ipv4,
}

/// The place of the first IPv4 address in a list, or its length.
pub open spec fn first_v4(ips: Seq<InterfaceAddress>) -> int
    decreases ips.len(),
{
    if ips.len() == 0 {
        0
    } else if ips[0] is V4 {
        0
    } else {
        1 + first_v4(ips.drop_first())
    }
}

/// An interface that a scan may pick by itself: up, off the loopback, with a
/// hardware address and an IPv4 address.
pub open spec fn suitable(interface: InterfaceInfo) -> bool {
    &&& !interface.is_loopback
    &&& interface.is_up
    &&& interface.mac is Some
    &&& first_v4(interface.ips@) < interface.ips@.len()
}

/// Whether the interface answers to the choice: to the name, if one is given,
/// else by being suitable.
pub open spec fn chosen(interface: InterfaceInfo, name: Option<String>) -> bool {
    match name {
        Some(name) => interface.name@ == name@,
        None => suitable(interface),
    }
}

/// The place of the first interface that answers to the choice, or the length
/// of the list.
pub open spec fn first_chosen(interfaces: Seq<InterfaceInfo>, name: Option<String>) -> int
    decreases interfaces.len(),
{
    if interfaces.len() == 0 {
        0
    } else if chosen(interfaces[0], name) {
        0
    } else {
        1 + first_chosen(interfaces.drop_first(), name)
    }
}

/// Where a scan is sent from: the first interface with the name asked for, or
/// without a name the first suitable one, with its hardware address and its
/// first IPv4 address; an error where one of these is missing.
pub open spec fn scan_source(interfaces: Seq<InterfaceInfo>, name: Option<String>) -> Result<
    (int, Seq<u8>, Ipv4),
    ScanError,
> {
    let at = first_chosen(interfaces, name);
    if at >= interfaces.len() {
        if name is Some {
            Err(ScanError::InterfaceNotFound)
        } else {
            Err(ScanError::NoSuitableInterface)
        }
    } else {
        let interface = interfaces[at];
        let v4 = first_v4(interface.ips@);
        if interface.mac is None {
            Err(ScanError::NoMacAddress)
        } else if v4 >= interface.ips@.len() {
            Err(ScanError::NoIpv4Address)
        } else {
            Ok((at, interface.mac->0@, interface.ips@[v4]->V4_0))
        }
    }
}

fn find_v4(ips: &Vec<InterfaceAddress>) -> (out: Option<Ipv4>)
    ensures
        match out {
            Some(ip) => first_v4(ips@) < ips@.len() && ips@[first_v4(ips@)] == InterfaceAddress::V4(
                ip,
            ),
            None => first_v4(ips@) >= ips@.len(),
        },
{
    let mut i: usize = 0;
    assert(ips@.skip(0) =~= ips@);
    while i < ips.len()
        invariant
            i <= ips.len(),
            first_v4(ips@) == i + first_v4(ips@.skip(i as int)),
        decreases ips.len() - i,
    {
        assert(ips@.skip(i as int).drop_first() =~= ips@.skip(i + 1));
        match ips[i] {
            InterfaceAddress::V4(ip) => {
                return Some(ip);
            },
            InterfaceAddress::Other => {},
        }
        i = i + 1;
    }
    None
}

fn is_suitable(interface: &InterfaceInfo) -> (out: bool)
    ensures
        out == suitable(*interface),
{
    !interface.is_loopback && interface.is_up && interface.mac.is_some() && find_v4(
        &interface.ips,
    ).is_some()
}

/// Picks the interface to scan from and reads its addresses.
pub fn select_source(interfaces: &Vec<InterfaceInfo>, name: &Option<String>) -> (out: Result<
    ScanSource,
    ScanError,
>)
    ensures
        match out {
            Ok(source) => scan_source(interfaces@, *name) == Ok::<(int, Seq<u8>, Ipv4), ScanError>(
                (source.index as int, source.mac@, source.ip),
            ),
            Err(e) => scan_source(interfaces@, *name) == Err::<(int, Seq<u8>, Ipv4), ScanError>(e),
        },
{
    let mut i: usize = 0;
    assert(interfaces@.skip(0) =~= interfaces@);
    while i < interfaces.len()
        invariant
            i <= interfaces.len(),
            first_chosen(interfaces@, *name) == i + first_chosen(interfaces@.skip(i as int), *name),
        decreases interfaces.len() - i,
    {
        assert(interfaces@.skip(i as int).drop_first() =~= interfaces@.skip(i + 1));
        let interface = &interfaces[i];
        let hit = match name {
            Some(wanted) => interface.name == *wanted,
            None => is_suitable(interface),
        };
        if hit {
            let mac = match interface.mac {
                Some(mac) => mac,
                None => {
                    return Err(ScanError::NoMacAddress);
                },
            };
            return match find_v4(&interface.ips) {
                Some(ip) => Ok(ScanSource { index: i, mac, ip }),
                None => Err(ScanError::NoIpv4Address),
            };
        }
        i = i + 1;
    }
    if name.is_some() {
        Err(ScanError::InterfaceNotFound)
    } else {
        Err(ScanError::NoSuitableInterface)
    }
}

/// Gives a device the host name that was resolved for it, if one was.
pub fn with_hostname(device: Device, name: Option<String>) -> (out: Device)
    ensures
        out@ == (if name is Some {
            crate::models::DeviceView { hostname: opt_view(name), ..device@ }
        } else {
            device@
        }),
{
    match name {
        Some(name) => {
            let mut out = device;
            out.hostname = Some(name);
            out
        },
        None => device,
    }
}

} // verus!
