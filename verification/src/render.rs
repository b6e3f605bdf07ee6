//! What the table of devices shows: the counts in its head, and for every
//! device which address goes into which column and how wide a cell is.

use crate::models::{Device, DeviceStatus, DeviceView};
use crate::monitor::device_views;
use crate::text::{chars_between, chars_contain, contains, from_chars, opt_view, to_chars};
use vstd::prelude::*;
use vstd::string::StringExecFns;
use vstd::string::StringSliceAdditionalSpecFns;

verus! {

/// What `console::strip_ansi_codes` leaves of a string with these characters.
pub uninterp spec fn without_ansi(s: Seq<char>) -> Seq<char>;

/// `console::strip_ansi_codes`: the text without its ANSI escape sequences, a
/// function of the characters alone.
#[verifier::external_body]
fn strip_ansi(s: &str) -> (out: String)
    ensures
        out@ == without_ansi(s@),
{
    console::strip_ansi_codes(s).into_owned()
}

/// The length in bytes of what is seen of a string once its ANSI escape
/// sequences are taken out.
pub open spec fn visible_len(s: Seq<char>) -> usize {
    vstd::utf8::encode_utf8(without_ansi(s)).len() as usize
}

/// `n` spaces.
pub open spec fn spaces(n: nat) -> Seq<char> {
    Seq::new(n, |i: int| ' ')
}

/// A cell of the given width: an empty string is all spaces; another string is
/// followed by as many spaces as its visible length is short of the width.
pub open spec fn padded(s: Seq<char>, visible: nat, width: nat) -> Seq<char> {
    if s.len() == 0 {
        spaces(width)
    } else if visible < width {
        s + spaces((width - visible) as nat)
    } else {
        s
    }
}

fn push_spaces(out: &mut String, n: usize)
    ensures
        final(out)@ == old(out)@ + spaces(n as nat),
{
    let mut i: usize = 0;
    assert(out@ =~= old(out)@ + spaces(0));
    while i < n
        invariant
            i <= n,
            out@ == old(out)@ + spaces(i as nat),
        decreases n - i,
    {
        out.push(' ');
        assert(out@ =~= old(out)@ + spaces((i + 1) as nat));
        i = i + 1;
    }
}

/// Pads a string whose visible length is known to the width of a cell.
pub fn pad_visible(s: String, visible: usize, width: usize) -> (out: String)
    ensures
        out@ == padded(s@, visible as nat, width as nat),
{
    let mut out = s;
    if out.as_str().is_empty() {
        push_spaces(&mut out, width);
        assert(out@ =~= spaces(width as nat));
    } else if visible < width {
        push_spaces(&mut out, width - visible);
    }
    out
}

/// Pads a string that may carry colours to the width of a cell: the escape
/// sequences do not count towards its length.
pub fn pad_colored(s: String, width: usize) -> (out: String)
    ensures
        out@ == padded(s@, visible_len(s@) as nat, width as nat),
{
    let seen = strip_ansi(s.as_str());
    let visible = seen.as_str().len();
    pad_visible(s, visible, width)
}

/// Whether a vendor name is that of a virtual machine or container.
pub open spec fn names_machine(vendor: Seq<char>) -> bool {
    ||| contains(vendor, "Virtual"@)
    ||| contains(vendor, "Proxmox"@)
    ||| contains(vendor, "QEMU"@)
    ||| contains(vendor, "VMware"@)
    ||| contains(vendor, "Hyper-V"@)
    ||| contains(vendor, "VirtualBox"@)
}

/// Whether a vendor name marks the address itself as virtual or private.
pub open spec fn names_virtual_address(vendor: Seq<char>) -> bool {
    contains(vendor, "Virtual"@) || contains(vendor, "Private"@)
}

/// The vendor as it is shown: nothing where there is none.
pub open spec fn shown_vendor(device: DeviceView) -> Seq<char> {
    match device.vendor {
        Some(vendor) => vendor,
        None => Seq::empty(),
    }
}

/// Whether the vendor of a device is that of a virtual machine or container.
pub open spec fn is_machine(device: DeviceView) -> bool {
    device.vendor is Some && names_machine(device.vendor->0)
}

/// Whether a device is shown as virtual: it has a virtual address, or its
/// vendor is that of a virtual machine.
pub open spec fn shown_virtual(device: DeviceView) -> bool {
    device.virtual_mac is Some || is_machine(device)
}

fn vendor_names_machine(vendor: &Vec<char>) -> (out: bool)
    ensures
        out == names_machine(vendor@),
{
    chars_contain(vendor, &to_chars("Virtual")) || chars_contain(vendor, &to_chars("Proxmox"))
        || chars_contain(vendor, &to_chars("QEMU")) || chars_contain(vendor, &to_chars("VMware"))
        || chars_contain(vendor, &to_chars("Hyper-V")) || chars_contain(
        vendor,
        &to_chars("VirtualBox"),
    )
}

/// Whether the vendor of a device is that of a virtual machine or container.
pub fn device_is_machine(device: &Device) -> (out: bool)
    ensures
        out == is_machine(device@),
{
    match &device.vendor {
        Some(vendor) => vendor_names_machine(&to_chars(vendor.as_str())),
        None => false,
    }
}

/// Whether a device is shown as virtual.
pub fn device_shown_virtual(device: &Device) -> (out: bool)
    ensures
        out == shown_virtual(device@),
{
    device.virtual_mac.is_some() || device_is_machine(device)
}

/// How many of the devices satisfy `wanted`.
pub open spec fn count_of(devices: Seq<DeviceView>, wanted: spec_fn(DeviceView) -> bool) -> nat
    decreases devices.len(),
{
    if devices.len() == 0 {
        0
    } else {
        count_of(devices.drop_last(), wanted) + if wanted(devices.last()) {
            1nat
        } else {
            0nat
        }
    }
}

/// No more devices satisfy a condition than there are.
pub proof fn lemma_count_of_bound(devices: Seq<DeviceView>, wanted: spec_fn(DeviceView) -> bool)
    ensures
        count_of(devices, wanted) <= devices.len(),
    decreases devices.len(),
{
    if devices.len() > 0 {
        lemma_count_of_bound(devices.drop_last(), wanted);
    }
}

/// The counts in the head of the table.
#[derive(Clone, Copy, Debug, PartialEq, Eq)]
pub struct Summary {
    pub total: usize,
    pub online: usize,
    pub offline: usize,
    pub machines: usize,
}

/// Counts the devices: all, those online, those offline, and the virtual
/// machines and containers among them.
pub fn summarize(devices: &Vec<Device>) -> (out: Summary)
    ensures
        out.total == devices.len(),
        out.online == count_of(
            device_views(devices@),
            |d: DeviceView| d.status == DeviceStatus::Online,
        ),
        out.offline == count_of(
            device_views(devices@),
            |d: DeviceView| d.status == DeviceStatus::Offline,
        ),
        out.machines == count_of(device_views(devices@), |d: DeviceView| is_machine(d)),
{
    let ghost all = device_views(devices@);
    let ghost is_online = |d: DeviceView| d.status == DeviceStatus::Online;
    let ghost is_offline = |d: DeviceView| d.status == DeviceStatus::Offline;
    let ghost is_vm = |d: DeviceView| is_machine(d);
    let mut online: usize = 0;
    let mut offline: usize = 0;
    let mut machines: usize = 0;
    let mut i: usize = 0;
    proof {
        assert(all.take(0) =~= Seq::<DeviceView>::empty());
    }
    while i < devices.len()
        invariant
            i <= devices.len(),
            all == device_views(devices@),
            is_online == (|d: DeviceView| d.status == DeviceStatus::Online),
            is_offline == (|d: DeviceView| d.status == DeviceStatus::Offline),
            is_vm == (|d: DeviceView| is_machine(d)),
            online == count_of(all.take(i as int), is_online),
            offline == count_of(all.take(i as int), is_offline),
            machines == count_of(all.take(i as int), is_vm),
        decreases devices.len() - i,
    {
        proof {
            assert(all.take(i + 1).drop_last() =~= all.take(i as int));
            assert(all.take(i + 1).last() == devices@[i as int]@);
            lemma_count_of_bound(all.take(i as int), is_online);
            lemma_count_of_bound(all.take(i as int), is_offline);
            lemma_count_of_bound(all.take(i as int), is_vm);
        }
        let device = &devices[i];
        if device.status == DeviceStatus::Online {
            online = online + 1;
        }
        if device.status == DeviceStatus::Offline {
            offline = offline + 1;
        }
        if device_is_machine(device) {
            machines = machines + 1;
        }
        i = i + 1;
    }
    proof {
        assert(all.take(i as int) =~= all);
    }
    Summary { total: devices.len(), online, offline, machines }
}

/// How the address in the first address column is to be read.
#[derive(Clone, Copy, Debug, PartialEq, Eq, Structural)]
pub enum MacKind {
    /// The column stays empty: only a virtual address is known.
    Absent,
    /// The address of a physical device.
    Physical,
    /// The real address of a device that also has a virtual one.
    Real,
}

/// What the two address columns of a row hold.
#[derive(Debug)]
pub struct MacColumns {
    pub kind: MacKind,
    pub mac: String,
    pub virtual_mac: String,
}

/// The two address columns as the rules see them.
pub struct MacColumnsView {
    pub kind: MacKind,
    pub mac: Seq<char>,
    pub virtual_mac: Seq<char>,
}

impl View for MacColumns {
    type V = MacColumnsView;

    open spec fn view(&self) -> MacColumnsView {
        MacColumnsView { kind: self.kind, mac: self.mac@, virtual_mac: self.virtual_mac@ }
    }
}

/// The two address columns of a device.
///
/// With a virtual address that is the address itself, only the virtual column
/// is filled. With a virtual address beside an address whose vendor marks it as
/// virtual too, the address goes into the virtual column alone. With a virtual
/// address beside a real one, both columns are filled. Without a virtual
/// address, the address goes into the virtual column if its vendor marks it as
/// virtual, else into the first column as that of a physical device.
pub open spec fn mac_columns(device: DeviceView) -> MacColumnsView {
    let marked = names_virtual_address(shown_vendor(device));
    match device.virtual_mac {
        Some(virtual_mac) => if device.mac == virtual_mac {
            MacColumnsView { kind: MacKind::Absent, mac: Seq::empty(), virtual_mac }
        } else if marked {
            MacColumnsView { kind: MacKind::Absent, mac: Seq::empty(), virtual_mac: device.mac }
        } else {
            MacColumnsView { kind: MacKind::Real, mac: device.mac, virtual_mac }
        },
        None => if marked {
            MacColumnsView { kind: MacKind::Absent, mac: Seq::empty(), virtual_mac: device.mac }
        } else {
            MacColumnsView { kind: MacKind::Physical, mac: device.mac, virtual_mac: Seq::empty() }
        },
    }
}

/// Decides what the two address columns of a device hold.
pub fn address_columns(device: &Device) -> (out: MacColumns)
    ensures
        out@ == mac_columns(device@),
{
    let vendor = match &device.vendor {
        Some(vendor) => to_chars(vendor.as_str()),
        None => Vec::new(),
    };
    let marked = chars_contain(&vendor, &to_chars("Virtual")) || chars_contain(
        &vendor,
        &to_chars("Private"),
    );
    match &device.virtual_mac {
        Some(virtual_mac) => {
            if device.mac == *virtual_mac {
                MacColumns { kind: MacKind::Absent, mac: String::new(), virtual_mac: virtual_mac.clone() }
            } else if marked {
                MacColumns { kind: MacKind::Absent, mac: String::new(), virtual_mac: device.mac.clone() }
            } else {
                MacColumns {
                    kind: MacKind::Real,
                    mac: device.mac.clone(),
                    virtual_mac: virtual_mac.clone(),
                }
            }
        },
        None => {
            if marked {
                MacColumns { kind: MacKind::Absent, mac: String::new(), virtual_mac: device.mac.clone() }
            } else {
                MacColumns { kind: MacKind::Physical, mac: device.mac.clone(), virtual_mac: String::new() }
            }
        },
    }
}

/// `s` without the underscores it begins with.
pub open spec fn without_leading_underscores(s: Seq<char>) -> Seq<char>
    decreases s.len(),
{
    if s.len() > 0 && s[0] == '_' {
        without_leading_underscores(s.drop_first())
    } else {
        s
    }
}

/// The host name as it is shown: without leading underscores, empty where
/// there is none.
pub open spec fn shown_hostname(device: DeviceView) -> Seq<char> {
    match device.hostname {
        Some(name) => without_leading_underscores(name),
        None => Seq::empty(),
    }
}

/// The host name of a device as the table shows it.
pub fn display_hostname(device: &Device) -> (out: String)
    ensures
        out@ == shown_hostname(device@),
{
    match &device.hostname {
        Some(name) => {
            let chars = to_chars(name.as_str());
            let mut from: usize = 0;
            assert(chars@.skip(0) =~= chars@);
            while from < chars.len() && chars[from] == '_'
                invariant
                    from <= chars.len(),
                    without_leading_underscores(chars@) == without_leading_underscores(
                        chars@.skip(from as int),
                    ),
                decreases chars.len() - from,
            {
                assert(chars@.skip(from as int).drop_first() =~= chars@.skip(from + 1));
                from = from + 1;
            }
            let kept = chars_between(&chars, from, chars.len());
            assert(kept@ =~= chars@.skip(from as int));
            from_chars(&kept)
        },
        None => String::new(),
    }
}

/// The first `n` characters of `s`, or all of it if it has no more.
pub open spec fn first_chars(s: Seq<char>, n: nat) -> Seq<char> {
    if s.len() <= n {
        s
    } else {
        s.take(n as int)
    }
}

/// Cuts a string to its first `n` characters.
pub fn truncate(s: &str, n: usize) -> (out: String)
    ensures
        out@ == first_chars(s@, n as nat),
{
    let chars = to_chars(s);
    if chars.len() <= n {
        from_chars(&chars)
    } else {
        let kept = chars_between(&chars, 0, n);
        assert(kept@ =~= chars@.take(n as int));
        from_chars(&kept)
    }
}

/// The address of a device as the table shows it: `UNKNOWN` where it is empty.
pub fn display_ip(device: &Device) -> (out: String)
    ensures
        out@ == if device.ip@.len() == 0 {
            "UNKNOWN"@
        } else {
            device.ip@
        },
{
    if device.ip.as_str().is_empty() {
        String::from_str("UNKNOWN")
    } else {
        device.ip.clone()
    }
}

} // verus!
