//! The device registry: each scan is merged into the known devices, and the
//! status of every device follows from what was seen, the blacklist and the clock.

use crate::models::{Device, DeviceStatus, DeviceView, Timestamp};
use crate::table::StringMap;
use crate::text::{opt_view, string_views, to_chars};
use crate::vendor::{is_virtual_mac, vendor_of, VendorDb};
use vstd::prelude::*;

verus! {

/// The views of a list of devices.
pub open spec fn device_views(devices: Seq<Device>) -> Seq<DeviceView> {
    Seq::new(devices.len(), |i: int| devices[i]@)
}

/// `c` with an ASCII lower-case letter turned into its capital.
pub open spec fn ascii_upper(c: char) -> char {
    if 'a' <= c <= 'z' {
        ((c as u8 - 32) as u8) as char
    } else {
        c
    }
}

/// Equal but for the case of ASCII letters.
pub open spec fn same_ignoring_case(a: Seq<char>, b: Seq<char>) -> bool {
    &&& a.len() == b.len()
    &&& forall|i: int| 0 <= i < a.len() ==> ascii_upper(#[trigger] a[i]) == ascii_upper(b[i])
}

/// Whether the blacklist names `mac`, in whatever case.
pub open spec fn blacklisted(blacklist: Seq<Seq<char>>, mac: Seq<char>) -> bool {
    exists|i: int| 0 <= i < blacklist.len() && same_ignoring_case(#[trigger] blacklist[i], mac)
}

fn upper_of(c: char) -> (out: char)
    ensures
        out == ascii_upper(c),
{
    if 'a' <= c && c <= 'z' {
        ((c as u8) - 32) as char
    } else {
        c
    }
}

fn same_but_case(a: &Vec<char>, b: &Vec<char>) -> (out: bool)
    ensures
        out == same_ignoring_case(a@, b@),
{
    if a.len() != b.len() {
        return false;
    }
    let mut i: usize = 0;
    while i < a.len()
        invariant
            i <= a.len(),
            a.len() == b.len(),
            forall|k: int| 0 <= k < i ==> ascii_upper(#[trigger] a@[k]) == ascii_upper(b@[k]),
        decreases a.len() - i,
    {
        if upper_of(a[i]) != upper_of(b[i]) {
            return false;
        }
        i = i + 1;
    }
    true
}

/// Whether the blacklist names `mac`, in whatever case.
pub fn is_blacklisted(blacklist: &Vec<String>, mac: &str) -> (out: bool)
    ensures
        out == blacklisted(string_views(blacklist@), mac@),
{
    let wanted = to_chars(mac);
    let mut i: usize = 0;
    while i < blacklist.len()
        invariant
            i <= blacklist.len(),
            wanted@ == mac@,
            forall|k: int|
                0 <= k < i ==> !same_ignoring_case(#[trigger] string_views(blacklist@)[k], mac@),
        decreases blacklist.len() - i,
    {
        let entry = to_chars(blacklist[i].as_str());
        assert(string_views(blacklist@)[i as int] == entry@);
        if same_but_case(&entry, &wanted) {
            return true;
        }
        i = i + 1;
    }
    false
}

/// What a scan reports of a device, after correction: where the manual table
/// knows the real address of its IP, the address seen becomes the virtual one,
/// the real one takes its place and the vendor is that of the real one; else an
/// address of a virtualization vendor is noted as its own virtual address.
pub open spec fn corrected(seen: DeviceView, mappings: Map<Seq<char>, Seq<char>>) -> DeviceView {
    if mappings.contains_key(seen.ip) {
        DeviceView {
            mac: mappings[seen.ip],
            virtual_mac: Some(seen.mac),
            vendor: vendor_of(mappings[seen.ip]),
            ..seen
        }
    } else if is_virtual_mac(seen.mac) {
        DeviceView { virtual_mac: Some(seen.mac), ..seen }
    } else {
        seen
    }
}

/// The status of a device that answered in this scan.
///
/// | now     | blacklisted | then    |
/// |---------|-------------|---------|
/// | Offline | no          | Online  |
/// | Offline | yes         | Block   |
/// | Online  | yes         | Block   |
/// | Block   | no          | Online  |
/// | Online  | no          | Online  |
/// | Block   | yes         | Block   |
pub open spec fn status_when_seen(current: DeviceStatus, blocked: bool) -> DeviceStatus {
    match current {
        DeviceStatus::Offline => if blocked {
            DeviceStatus::Block
        } else {
            DeviceStatus::Online
        },
        DeviceStatus::Online => if blocked {
            DeviceStatus::Block
        } else {
            DeviceStatus::Online
        },
        DeviceStatus::Block => if blocked {
            DeviceStatus::Block
        } else {
            DeviceStatus::Online
        },
    }
}

/// A known device after it answered in a scan as `found`.
///
/// The address moves to the one found unless that would put a virtual address
/// in the place of a real one: it stays where the one found comes with a
/// virtual address that is not the address known so far. Virtual address,
/// vendor and host name move to what was found, where something was found.
pub open spec fn observed(known: DeviceView, found: DeviceView, blocked: bool, now: Timestamp)
    -> DeviceView {
    DeviceView {
        ip: known.ip,
        mac: if found.virtual_mac is None || found.virtual_mac == Some(known.mac) {
            found.mac
        } else {
            known.mac
        },
        virtual_mac: if found.virtual_mac is Some {
            found.virtual_mac
        } else {
            known.virtual_mac
        },
        vendor: if found.vendor is Some {
            found.vendor
        } else {
            known.vendor
        },
        hostname: if found.hostname is Some {
            found.hostname
        } else {
            known.hostname
        },
        last_seen: now,
        status: status_when_seen(known.status, blocked),
    }
}

/// A device that enters the registry: blocked if blacklisted, else online.
pub open spec fn admitted(found: DeviceView, blocked: bool) -> DeviceView {
    DeviceView {
        status: if blocked {
            DeviceStatus::Block
        } else {
            DeviceStatus::Online
        },
        ..found
    }
}

/// Some device of `registry` has the address `ip`.
pub open spec fn knows(registry: Seq<DeviceView>, ip: Seq<char>) -> bool {
    exists|i: int| 0 <= i < registry.len() && (#[trigger] registry[i]).ip == ip
}

/// The place of the device with the address `ip`, where `knows` holds.
pub open spec fn place_of(registry: Seq<DeviceView>, ip: Seq<char>) -> int {
    choose|i: int| 0 <= i < registry.len() && (#[trigger] registry[i]).ip == ip
}

/// Every device is valid, and no two share an IP address.
pub open spec fn well_formed(registry: Seq<DeviceView>) -> bool {
    &&& forall|i: int| 0 <= i < registry.len() ==> (#[trigger] registry[i]).valid()
    &&& forall|i: int, j: int|
        0 <= i < j < registry.len() ==> (#[trigger] registry[i]).ip != (#[trigger] registry[j]).ip
}

/// What a scan has to tell the user.
#[derive(Debug)]
pub enum Event {
    NewDevice { ip: String, mac: String },
    BackOnline { ip: String },
    WentOffline { ip: String },
}

/// An event as the rules see it.
pub enum EventView {
    NewDevice { ip: Seq<char>, mac: Seq<char> },
    BackOnline { ip: Seq<char> },
    WentOffline { ip: Seq<char> },
}

impl View for Event {
    type V = EventView;

    open spec fn view(&self) -> EventView {
        match *self {
            Event::NewDevice { ip, mac } => EventView::NewDevice { ip: ip@, mac: mac@ },
            Event::BackOnline { ip } => EventView::BackOnline { ip: ip@ },
            Event::WentOffline { ip } => EventView::WentOffline { ip: ip@ },
        }
    }
}

/// The views of a list of events.
pub open spec fn event_views(events: Seq<Event>) -> Seq<EventView> {
    Seq::new(events.len(), |i: int| events[i]@)
}

/// The registry after one found device: an invalid one is passed over, a known
/// address is updated in place, a new one is added at the end.
pub open spec fn absorbed(
    registry: Seq<DeviceView>,
    found: DeviceView,
    blacklist: Seq<Seq<char>>,
    now: Timestamp,
) -> Seq<DeviceView> {
    let blocked = blacklisted(blacklist, found.mac);
    if !found.valid() {
        registry
    } else if knows(registry, found.ip) {
        let at = place_of(registry, found.ip);
        registry.update(at, observed(registry[at], found, blocked, now))
    } else {
        registry.push(admitted(found, blocked))
    }
}

/// What one found device gives rise to: a new device is announced, and so is
/// one that was offline and comes back without being blacklisted.
pub open spec fn absorbed_event(
    registry: Seq<DeviceView>,
    found: DeviceView,
    blacklist: Seq<Seq<char>>,
) -> Option<EventView> {
    if !found.valid() {
        None
    } else if knows(registry, found.ip) {
        let known = registry[place_of(registry, found.ip)];
        if known.status == DeviceStatus::Offline && !blacklisted(blacklist, found.mac) {
            Some(EventView::BackOnline { ip: found.ip })
        } else {
            None
        }
    } else {
        Some(EventView::NewDevice { ip: found.ip, mac: found.mac })
    }
}

/// The registry after all found devices, taken in order.
pub open spec fn absorbed_all(
    registry: Seq<DeviceView>,
    found: Seq<DeviceView>,
    blacklist: Seq<Seq<char>>,
    now: Timestamp,
) -> Seq<DeviceView>
    decreases found.len(),
{
    if found.len() == 0 {
        registry
    } else {
        absorbed(absorbed_all(registry, found.drop_last(), blacklist, now), found.last(), blacklist, now)
    }
}

/// The events of all found devices, in their order.
pub open spec fn absorbed_events(
    registry: Seq<DeviceView>,
    found: Seq<DeviceView>,
    blacklist: Seq<Seq<char>>,
    now: Timestamp,
) -> Seq<EventView>
    decreases found.len(),
{
    if found.len() == 0 {
        Seq::empty()
    } else {
        let earlier = absorbed_events(registry, found.drop_last(), blacklist, now);
        match absorbed_event(
            absorbed_all(registry, found.drop_last(), blacklist, now),
            found.last(),
            blacklist,
        ) {
            Some(event) => earlier.push(event),
            None => earlier,
        }
    }
}

/// Whether a valid found device has the address `ip`.
pub open spec fn seen_in(found: Seq<DeviceView>, ip: Seq<char>) -> bool {
    exists|k: int| 0 <= k < found.len() && (#[trigger] found[k]).valid() && found[k].ip == ip
}

/// Whether more than two and a half intervals lie between `last_seen` and `now`.
pub open spec fn overdue(last_seen: Timestamp, now: Timestamp, interval: u64) -> bool {
    2 * (now.total_nanos() - last_seen.total_nanos()) > 5 * interval * 1_000_000_000
}

/// Whether a device goes offline now: it did not answer, is not blacklisted, was
/// online, and is overdue.
pub open spec fn goes_offline(
    device: DeviceView,
    seen: bool,
    blacklist: Seq<Seq<char>>,
    now: Timestamp,
    interval: u64,
) -> bool {
    &&& !seen
    &&& !blacklisted(blacklist, device.mac)
    &&& device.status == DeviceStatus::Online
    &&& overdue(device.last_seen, now, interval)
}

/// The status of a device at the end of a scan: a blacklisted address is
/// blocked whatever else holds; a device that goes offline is offline.
pub open spec fn settled(
    device: DeviceView,
    seen: bool,
    blacklist: Seq<Seq<char>>,
    now: Timestamp,
    interval: u64,
) -> DeviceView {
    if blacklisted(blacklist, device.mac) {
        DeviceView { status: DeviceStatus::Block, ..device }
    } else if goes_offline(device, seen, blacklist, now, interval) {
        DeviceView { status: DeviceStatus::Offline, ..device }
    } else {
        device
    }
}

/// Every device settled.
pub open spec fn settled_all(
    registry: Seq<DeviceView>,
    found: Seq<DeviceView>,
    blacklist: Seq<Seq<char>>,
    now: Timestamp,
    interval: u64,
) -> Seq<DeviceView> {
    Seq::new(
        registry.len(),
        |i: int| settled(registry[i], seen_in(found, registry[i].ip), blacklist, now, interval),
    )
}

/// One event for each device that goes offline, in the registry's order.
pub open spec fn offline_events(
    registry: Seq<DeviceView>,
    found: Seq<DeviceView>,
    blacklist: Seq<Seq<char>>,
    now: Timestamp,
    interval: u64,
) -> Seq<EventView>
    decreases registry.len(),
{
    if registry.len() == 0 {
        Seq::empty()
    } else {
        let earlier = offline_events(registry.drop_last(), found, blacklist, now, interval);
        let device = registry.last();
        if goes_offline(device, seen_in(found, device.ip), blacklist, now, interval) {
            earlier.push(EventView::WentOffline { ip: device.ip })
        } else {
            earlier
        }
    }
}

/// The registry after a scan that found `found`.
pub open spec fn merged(
    registry: Seq<DeviceView>,
    found: Seq<DeviceView>,
    blacklist: Seq<Seq<char>>,
    now: Timestamp,
    interval: u64,
) -> Seq<DeviceView> {
    settled_all(absorbed_all(registry, found, blacklist, now), found, blacklist, now, interval)
}

/// The events of a scan: those of the found devices, then those of the devices
/// that go offline.
pub open spec fn merge_events(
    registry: Seq<DeviceView>,
    found: Seq<DeviceView>,
    blacklist: Seq<Seq<char>>,
    now: Timestamp,
    interval: u64,
) -> Seq<EventView> {
    absorbed_events(registry, found, blacklist, now) + offline_events(
        absorbed_all(registry, found, blacklist, now),
        found,
        blacklist,
        now,
        interval,
    )
}

/// Two states of a device agree in all that is worth a write: status, both
/// addresses, vendor and host name.
pub open spec fn same_record(a: DeviceView, b: DeviceView) -> bool {
    &&& a.status == b.status
    &&& a.mac == b.mac
    &&& a.virtual_mac == b.virtual_mac
    &&& a.vendor == b.vendor
    &&& a.hostname == b.hostname
}

/// Whether a scan left something to write: a new device, or a device whose
/// record is no longer the same.
pub open spec fn dirty(before: Seq<DeviceView>, after: Seq<DeviceView>) -> bool {
    ||| before.len() != after.len()
    ||| exists|i: int| 0 <= i < before.len() && !same_record(#[trigger] before[i], after[i])
}

fn same_text(a: &Option<String>, b: &Option<String>) -> (out: bool)
    ensures
        out == (opt_view(*a) == opt_view(*b)),
{
    match (a, b) {
        (Some(x), Some(y)) => *x == *y,
        (None, None) => true,
        _ => false,
    }
}

/// Whether two states of a device agree in all that is worth a write.
pub fn records_agree(a: &Device, b: &Device) -> (out: bool)
    ensures
        out == same_record(a@, b@),
{
    a.status == b.status && a.mac == b.mac && same_text(&a.virtual_mac, &b.virtual_mac)
        && same_text(&a.vendor, &b.vendor) && same_text(&a.hostname, &b.hostname)
}

fn name_is(text: &Option<String>, name: &String) -> (out: bool)
    ensures
        out == (opt_view(*text) == Some(name@)),
{
    match text {
        Some(x) => *x == *name,
        None => false,
    }
}

/// A known device after it answered in a scan as `found`.
pub fn observe(known: &Device, found: &Device, blocked: bool, now: Timestamp) -> (out: Device)
    ensures
        out@ == observed(known@, found@, blocked, now),
{
    let takes_address = found.virtual_mac.is_none() || name_is(&found.virtual_mac, &known.mac);
    Device {
        ip: known.ip.clone(),
        mac: if takes_address {
            found.mac.clone()
        } else {
            known.mac.clone()
        },
        virtual_mac: if found.virtual_mac.is_some() {
            found.virtual_mac.clone()
        } else {
            known.virtual_mac.clone()
        },
        vendor: if found.vendor.is_some() {
            found.vendor.clone()
        } else {
            known.vendor.clone()
        },
        hostname: if found.hostname.is_some() {
            found.hostname.clone()
        } else {
            known.hostname.clone()
        },
        last_seen: now,
        status: if blocked {
            DeviceStatus::Block
        } else {
            DeviceStatus::Online
        },
    }
}

/// A device that enters the registry.
pub fn enter(found: &Device, blocked: bool) -> (out: Device)
    ensures
        out@ == admitted(found@, blocked),
{
    Device {
        ip: found.ip.clone(),
        mac: found.mac.clone(),
        virtual_mac: found.virtual_mac.clone(),
        vendor: found.vendor.clone(),
        hostname: found.hostname.clone(),
        last_seen: found.last_seen,
        status: if blocked {
            DeviceStatus::Block
        } else {
            DeviceStatus::Online
        },
    }
}

/// Whether more than two and a half intervals lie between `last_seen` and `now`.
pub fn is_overdue(last_seen: &Timestamp, now: &Timestamp, interval: u64) -> (out: bool)
    ensures
        out == overdue(*last_seen, *now, interval),
{
    let elapsed: i128 = now.nanos_since(last_seen);
    2 * elapsed > 5 * (interval as i128) * 1_000_000_000
}

fn find_ip(devices: &Vec<Device>, ip: &String) -> (out: Option<usize>)
    ensures
        match out {
            Some(i) => i < devices.len() && devices@[i as int].ip@ == ip@,
            None => !knows(device_views(devices@), ip@),
        },
{
    let mut i: usize = 0;
    while i < devices.len()
        invariant
            i <= devices.len(),
            forall|k: int| 0 <= k < i ==> (#[trigger] device_views(devices@)[k]).ip != ip@,
        decreases devices.len() - i,
    {
        if devices[i].ip == *ip {
            return Some(i);
        }
        i = i + 1;
    }
    None
}

fn copy_devices(devices: &Vec<Device>) -> (out: Vec<Device>)
    ensures
        out@ == devices@,
{
    let mut out: Vec<Device> = Vec::new();
    let mut i: usize = 0;
    while i < devices.len()
        invariant
            i <= devices.len(),
            out@ == devices@.take(i as int),
        decreases devices.len() - i,
    {
        out.push(devices[i].clone());
        assert(out@ =~= devices@.take(i + 1));
        i = i + 1;
    }
    assert(devices@.take(i as int) =~= devices@);
    out
}

/// What a merge hands back: the events in their order, and whether anything
/// changed that is worth a write.
#[derive(Debug)]
pub struct MergeReport {
    pub events: Vec<Event>,
    pub dirty: bool,
}

/// The known devices, one for each IP address.
pub struct Registry {
    devices: Vec<Device>,
}

impl View for Registry {
    type V = Seq<DeviceView>;

    closed spec fn view(&self) -> Seq<DeviceView> {
        device_views(self.devices@)
    }
}

impl Registry {
    #[verifier::type_invariant]
    spec fn sound(self) -> bool {
        well_formed(device_views(self.devices@))
    }

    /// A registry without devices.
    pub fn new() -> (out: Registry)
        ensures
            out@ == Seq::<DeviceView>::empty(),
    {
        let out = Registry { devices: Vec::new() };
        assert(out@ =~= Seq::<DeviceView>::empty());
        out
    }

    /// The devices, in the order in which they entered.
    pub fn devices(&self) -> (out: &Vec<Device>)
        ensures
            device_views(out@) == self@,
            well_formed(self@),
    {
        proof {
            use_type_invariant(self);
        }
        &self.devices
    }

    /// The number of devices.
    pub fn len(&self) -> (out: usize)
        ensures
            out == self@.len(),
    {
        self.devices.len()
    }

    /// The device with the address `ip`.
    pub fn get(&self, ip: &String) -> (out: Option<&Device>)
        ensures
            match out {
                Some(device) => knows(self@, ip@) && device@ == self@[place_of(self@, ip@)],
                None => !knows(self@, ip@),
            },
    {
        proof {
            use_type_invariant(self);
        }
        match find_ip(&self.devices, ip) {
            Some(i) => {
                assert(device_views(self.devices@)[i as int].ip == ip@);
                Some(&self.devices[i])
            },
            None => None,
        }
    }

    /// Merges what a scan found into the registry and settles every status.
    pub fn merge(
        &mut self,
        found: &Vec<Device>,
        blacklist: &Vec<String>,
        now: Timestamp,
        interval: u64,
    ) -> (out: MergeReport)
        ensures
            well_formed(old(self)@),
            well_formed(final(self)@),
            final(self)@ == merged(
                old(self)@,
                device_views(found@),
                string_views(blacklist@),
                now,
                interval,
            ),
            event_views(out.events@) == merge_events(
                old(self)@,
                device_views(found@),
                string_views(blacklist@),
                now,
                interval,
            ),
            out.dirty == dirty(old(self)@, final(self)@),
    {
        proof {
            use_type_invariant(&*self);
        }
        let ghost start = self@;
        let ghost seen_all = device_views(found@);
        let ghost names = string_views(blacklist@);
        let before = copy_devices(&self.devices);
        let mut devices: Vec<Device> = Vec::new();
        std::mem::swap(&mut devices, &mut self.devices);
        let mut events: Vec<Event> = Vec::new();
        let mut seen: Vec<bool> = Vec::new();
        let mut n: usize = 0;
        while n < devices.len()
            invariant
                n <= devices.len(),
                seen.len() == n,
                forall|i: int| 0 <= i < n ==> !(#[trigger] seen@[i]),
            decreases devices.len() - n,
        {
            seen.push(false);
            n = n + 1;
        }
        let mut k: usize = 0;
        proof {
            assert(seen_all.take(0) =~= Seq::<DeviceView>::empty());
            assert(event_views(events@) =~= Seq::<EventView>::empty());
        }
        while k < found.len()
            invariant
                k <= found.len(),
                seen_all == device_views(found@),
                names == string_views(blacklist@),
                well_formed(start),
                well_formed(device_views(devices@)),
                device_views(devices@) == absorbed_all(start, seen_all.take(k as int), names, now),
                event_views(events@) == absorbed_events(start, seen_all.take(k as int), names, now),
                seen.len() == devices.len(),
                forall|i: int|
                    0 <= i < devices.len() ==> #[trigger] seen@[i] == seen_in(
                        seen_all.take(k as int),
                        device_views(devices@)[i].ip,
                    ),
            decreases found.len() - k,
        {
            let ghost so_far = seen_all.take(k as int);
            let ghost grown = seen_all.take(k + 1);
            let ghost current = device_views(devices@);
            let ghost old_events = event_views(events@);
            let ghost old_seen = seen@;
            let item = &found[k];
            proof {
                assert(grown.drop_last() =~= so_far);
                assert(grown.last() == item@);
                assert forall|ip: Seq<char>| seen_in(grown, ip) == (seen_in(so_far, ip) || (
                item@.valid() && item@.ip == ip)) by {
                    if seen_in(so_far, ip) {
                        let w = choose|w: int|
                            0 <= w < so_far.len() && (#[trigger] so_far[w]).valid() && so_far[w].ip
                                == ip;
                        assert(grown[w] == so_far[w]);
                    }
                    if item@.valid() && item@.ip == ip {
                        assert(grown[k as int] == item@);
                    }
                    if seen_in(grown, ip) {
                        let w = choose|w: int|
                            0 <= w < grown.len() && (#[trigger] grown[w]).valid() && grown[w].ip
                                == ip;
                        if w < k {
                            assert(so_far[w] == grown[w]);
                        }
                    }
                }
            }
            if item.validate() {
                let blocked = is_blacklisted(blacklist, item.mac.as_str());
                match find_ip(&devices, &item.ip) {
                    Some(at) => {
                        proof {
                            assert(current[at as int].ip == item@.ip);
                            assert(knows(current, item@.ip));
                            let chosen = place_of(current, item@.ip);
                            assert(chosen == at) by {
                                if chosen < at {
                                    assert(current[chosen].ip != current[at as int].ip);
                                } else if chosen > at {
                                    assert(current[at as int].ip != current[chosen].ip);
                                }
                            }
                        }
                        if devices[at].status == DeviceStatus::Offline && !blocked {
                            events.push(Event::BackOnline { ip: item.ip.clone() });
                        }
                        let updated = observe(&devices[at], item, blocked, now);
                        devices.set(at, updated);
                        seen.set(at, true);
                        proof {
                            assert(device_views(devices@) =~= current.update(
                                at as int,
                                observed(current[at as int], item@, blocked, now),
                            ));
                        }
                    },
                    None => {
                        events.push(Event::NewDevice { ip: item.ip.clone(), mac: item.mac.clone() });
                        let entering = enter(item, blocked);
                        devices.push(entering);
                        seen.push(true);
                        proof {
                            assert(device_views(devices@) =~= current.push(admitted(item@, blocked)));
                            let after = device_views(devices@);
                            assert forall|i: int, j: int| 0 <= i < j < after.len() implies (
                            #[trigger] after[i]).ip != (#[trigger] after[j]).ip by {
                                if j == after.len() - 1 {
                                    assert(current[i].ip != item@.ip);
                                } else {
                                    assert(current[i].ip != current[j].ip);
                                }
                            }
                        }
                    },
                }
            }
            proof {
                let after = device_views(devices@);
                assert(after == absorbed(current, item@, names, now));
                match absorbed_event(current, item@, names) {
                    Some(event) => {
                        assert(event_views(events@) =~= old_events.push(event));
                    },
                    None => {
                        assert(event_views(events@) =~= old_events);
                    },
                }
                assert forall|i: int| 0 <= i < devices.len() implies #[trigger] seen@[i] == seen_in(
                    grown,
                    after[i].ip,
                ) by {
                    if i < current.len() {
                        assert(after[i].ip == current[i].ip);
                        assert(old_seen[i] == seen_in(so_far, current[i].ip));
                    }
                }
            }
            k = k + 1;
        }
        proof {
            assert(seen_all.take(k as int) =~= seen_all);
        }
        let ghost absorbed_now = device_views(devices@);
        let ghost first_events = event_views(events@);
        let mut i: usize = 0;
        proof {
            assert(absorbed_now.take(0) =~= Seq::<DeviceView>::empty());
            assert(event_views(events@) =~= first_events + offline_events(
                absorbed_now.take(0),
                seen_all,
                names,
                now,
                interval,
            ));
        }
        while i < devices.len()
            invariant
                i <= devices.len(),
                devices.len() == absorbed_now.len(),
                seen.len() == devices.len(),
                names == string_views(blacklist@),
                well_formed(absorbed_now),
                forall|j: int|
                    0 <= j < devices.len() ==> #[trigger] seen@[j] == seen_in(
                        seen_all,
                        absorbed_now[j].ip,
                    ),
                forall|j: int|
                    0 <= j < i ==> #[trigger] device_views(devices@)[j] == settled(
                        absorbed_now[j],
                        seen_in(seen_all, absorbed_now[j].ip),
                        names,
                        now,
                        interval,
                    ),
                forall|j: int|
                    i <= j < devices.len() ==> #[trigger] device_views(devices@)[j]
                        == absorbed_now[j],
                event_views(events@) == first_events + offline_events(
                    absorbed_now.take(i as int),
                    seen_all,
                    names,
                    now,
                    interval,
                ),
            decreases devices.len() - i,
        {
            let ghost old_events = event_views(events@);
            let ghost old_views = device_views(devices@);
            proof {
                assert(absorbed_now.take(i + 1).drop_last() =~= absorbed_now.take(i as int));
                assert(absorbed_now.take(i + 1).last() == absorbed_now[i as int]);
                assert(old_views[i as int] == absorbed_now[i as int]);
            }
            let blocked = is_blacklisted(blacklist, devices[i].mac.as_str());
            if blocked {
                if devices[i].status != DeviceStatus::Block {
                    let mut changed = devices[i].clone();
                    changed.status = DeviceStatus::Block;
                    devices.set(i, changed);
                }
            } else if !seen[i] && devices[i].status == DeviceStatus::Online && is_overdue(
                &devices[i].last_seen,
                &now,
                interval,
            ) {
                events.push(Event::WentOffline { ip: devices[i].ip.clone() });
                let mut changed = devices[i].clone();
                changed.status = DeviceStatus::Offline;
                devices.set(i, changed);
            }
            proof {
                let views = device_views(devices@);
                assert(views[i as int] == settled(
                    absorbed_now[i as int],
                    seen_in(seen_all, absorbed_now[i as int].ip),
                    names,
                    now,
                    interval,
                ));
                assert forall|j: int| 0 <= j < i implies #[trigger] views[j] == settled(
                    absorbed_now[j],
                    seen_in(seen_all, absorbed_now[j].ip),
                    names,
                    now,
                    interval,
                ) by {
                    assert(views[j] == old_views[j]);
                }
                assert forall|j: int| i < j < devices.len() implies #[trigger] views[j]
                    == absorbed_now[j] by {
                    assert(views[j] == old_views[j]);
                }
                let tail = offline_events(absorbed_now.take(i + 1), seen_all, names, now, interval);
                let head = offline_events(
                    absorbed_now.take(i as int),
                    seen_all,
                    names,
                    now,
                    interval,
                );
                if goes_offline(
                    absorbed_now[i as int],
                    seen_in(seen_all, absorbed_now[i as int].ip),
                    names,
                    now,
                    interval,
                ) {
                    assert(event_views(events@) =~= old_events.push(
                        EventView::WentOffline { ip: absorbed_now[i as int].ip },
                    ));
                    assert(event_views(events@) =~= first_events + tail);
                } else {
                    assert(event_views(events@) =~= old_events);
                    assert(tail == head);
                }
            }
            i = i + 1;
        }
        proof {
            assert(absorbed_now.take(i as int) =~= absorbed_now);
            assert(device_views(devices@) =~= settled_all(
                absorbed_now,
                seen_all,
                names,
                now,
                interval,
            ));
            let result = device_views(devices@);
            assert forall|a: int, b: int| 0 <= a < b < result.len() implies (#[trigger] result[a]).ip
                != (#[trigger] result[b]).ip by {
                assert(absorbed_now[a].ip != absorbed_now[b].ip);
            }
            assert forall|a: int| 0 <= a < result.len() implies (#[trigger] result[a]).valid() by {
                assert(absorbed_now[a].valid());
            }
        }
        let mut changed = devices.len() != before.len();
        let mut j: usize = 0;
        while !changed && j < before.len()
            invariant
                !changed ==> j <= before.len() && before.len() == devices.len() && forall|m: int|
                    0 <= m < j ==> same_record(
                        #[trigger] device_views(before@)[m],
                        device_views(devices@)[m],
                    ),
                changed ==> dirty(device_views(before@), device_views(devices@)),
            decreases before.len() - j + if changed { 0int } else { 1int },
        {
            if !records_agree(&before[j], &devices[j]) {
                changed = true;
                assert(!same_record(device_views(before@)[j as int], device_views(devices@)[j as int]));
            } else {
                j = j + 1;
            }
        }
        self.devices = devices;
        MergeReport { events, dirty: changed }
    }
}

/// Every device of a scan corrected.
pub open spec fn corrected_all(found: Seq<DeviceView>, mappings: Map<Seq<char>, Seq<char>>) -> Seq<
    DeviceView,
> {
    Seq::new(found.len(), |i: int| corrected(found[i], mappings))
}

/// Corrects the address of one device that a scan reports.
pub fn correct_mac(seen: &Device, mappings: &StringMap, vendors: &VendorDb) -> (out: Device)
    ensures
        out@ == corrected(seen@, mappings@),
{
    match mappings.get(&seen.ip) {
        Some(real_mac) => {
            let vendor = vendors.lookup(real_mac.as_str());
            Device {
                mac: real_mac.clone(),
                ip: seen.ip.clone(),
                hostname: seen.hostname.clone(),
                vendor,
                last_seen: seen.last_seen,
                status: seen.status,
                virtual_mac: Some(seen.mac.clone()),
            }
        },
        None => {
            if vendors.is_virtual(seen.mac.as_str()) {
                let mut out = seen.clone();
                out.virtual_mac = Some(seen.mac.clone());
                out
            } else {
                seen.clone()
            }
        },
    }
}

/// Corrects the addresses of all devices that a scan reports.
pub fn correct_macs(found: &Vec<Device>, mappings: &StringMap, vendors: &VendorDb) -> (out: Vec<
    Device,
>)
    ensures
        device_views(out@) == corrected_all(device_views(found@), mappings@),
{
    let mut out: Vec<Device> = Vec::new();
    let mut i: usize = 0;
    while i < found.len()
        invariant
            i <= found.len(),
            out.len() == i,
            forall|k: int|
                0 <= k < i ==> (#[trigger] out@[k])@ == corrected(found@[k]@, mappings@),
        decreases found.len() - i,
    {
        let fixed = correct_mac(&found[i], mappings, vendors);
        out.push(fixed);
        i = i + 1;
    }
    assert(device_views(out@) =~= corrected_all(device_views(found@), mappings@));
    out
}

/// A stored device as it is taken up at start: where the manual table knows
/// another address for its IP, that one takes the place of the stored one,
/// which is kept as the virtual address unless one is kept already; else an
/// address of a virtualization vendor without a virtual address is noted as its
/// own; and a device without a vendor gets the one of its address.
pub open spec fn restored(stored: DeviceView, mappings: Map<Seq<char>, Seq<char>>) -> DeviceView {
    let addressed = if mappings.contains_key(stored.ip) {
        if stored.mac != mappings[stored.ip] {
            DeviceView {
                mac: mappings[stored.ip],
                virtual_mac: if stored.virtual_mac is None {
                    Some(stored.mac)
                } else {
                    stored.virtual_mac
                },
                ..stored
            }
        } else {
            stored
        }
    } else if stored.virtual_mac is None && is_virtual_mac(stored.mac) {
        DeviceView { virtual_mac: Some(stored.mac), ..stored }
    } else {
        stored
    };
    if addressed.vendor is None {
        DeviceView { vendor: vendor_of(addressed.mac), ..addressed }
    } else {
        addressed
    }
}

/// Whether taking up a stored device calls for a write: its address was
/// replaced or noted as virtual, or it had no vendor.
pub open spec fn restore_touches(stored: DeviceView, mappings: Map<Seq<char>, Seq<char>>) -> bool {
    ||| mappings.contains_key(stored.ip) && stored.mac != mappings[stored.ip]
    ||| !mappings.contains_key(stored.ip) && stored.virtual_mac is None && is_virtual_mac(
        stored.mac,
    )
    ||| stored.vendor is None
}

/// Whether a restored device takes the place of the one already standing at its
/// address: only if it was seen later.
pub open spec fn supersedes(device: DeviceView, registry: Seq<DeviceView>) -> bool {
    &&& device.valid()
    &&& knows(registry, device.ip)
    &&& device.last_seen.total_nanos() > registry[place_of(
        registry,
        device.ip,
    )].last_seen.total_nanos()
}

/// The registry after one stored device was taken up: an invalid one is left
/// out, and of two with one address the one seen later stays.
pub open spec fn reinstated(
    registry: Seq<DeviceView>,
    stored: DeviceView,
    mappings: Map<Seq<char>, Seq<char>>,
) -> Seq<DeviceView> {
    let device = restored(stored, mappings);
    if !device.valid() {
        registry
    } else if knows(registry, device.ip) {
        if supersedes(device, registry) {
            registry.update(place_of(registry, device.ip), device)
        } else {
            registry
        }
    } else {
        registry.push(device)
    }
}

/// The registry that the stored devices give, taken up in order.
pub open spec fn reinstated_all(stored: Seq<DeviceView>, mappings: Map<Seq<char>, Seq<char>>) -> Seq<
    DeviceView,
>
    decreases stored.len(),
{
    if stored.len() == 0 {
        Seq::empty()
    } else {
        reinstated(reinstated_all(stored.drop_last(), mappings), stored.last(), mappings)
    }
}

/// Whether taking up the stored devices calls for a write: one of them was
/// touched, or took the place of an earlier one.
pub open spec fn restore_dirty(stored: Seq<DeviceView>, mappings: Map<Seq<char>, Seq<char>>) -> bool
    decreases stored.len(),
{
    if stored.len() == 0 {
        false
    } else {
        ||| restore_dirty(stored.drop_last(), mappings)
        ||| restore_touches(stored.last(), mappings)
        ||| supersedes(
            restored(stored.last(), mappings),
            reinstated_all(stored.drop_last(), mappings),
        )
    }
}

/// A stored device as it is taken up at start.
pub fn restore(stored: &Device, mappings: &StringMap, vendors: &VendorDb) -> (out: (Device, bool))
    ensures
        out.0@ == restored(stored@, mappings@),
        out.1 == restore_touches(stored@, mappings@),
{
    let mut device = stored.clone();
    let mut touched = false;
    match mappings.get(&stored.ip) {
        Some(real_mac) => {
            if stored.mac != *real_mac {
                if stored.virtual_mac.is_none() {
                    device.virtual_mac = Some(stored.mac.clone());
                }
                device.mac = real_mac.clone();
                touched = true;
            }
        },
        None => {
            if stored.virtual_mac.is_none() && vendors.is_virtual(stored.mac.as_str()) {
                device.virtual_mac = Some(stored.mac.clone());
                touched = true;
            }
        },
    }
    if device.vendor.is_none() {
        device.vendor = vendors.lookup(device.mac.as_str());
        touched = true;
    }
    (device, touched)
}

impl Registry {
    /// The registry that the stored devices give, and whether taking them up
    /// calls for a write.
    pub fn from_stored(stored: &Vec<Device>, mappings: &StringMap, vendors: &VendorDb) -> (out: (
        Registry,
        bool,
    ))
        ensures
            out.0@ == reinstated_all(device_views(stored@), mappings@),
            out.1 == restore_dirty(device_views(stored@), mappings@),
            well_formed(out.0@),
    {
        let ghost all = device_views(stored@);
        let mut devices: Vec<Device> = Vec::new();
        let mut changed = false;
        let mut k: usize = 0;
        proof {
            assert(all.take(0) =~= Seq::<DeviceView>::empty());
            assert(device_views(devices@) =~= Seq::<DeviceView>::empty());
        }
        while k < stored.len()
            invariant
                k <= stored.len(),
                all == device_views(stored@),
                well_formed(device_views(devices@)),
                device_views(devices@) == reinstated_all(all.take(k as int), mappings@),
                changed == restore_dirty(all.take(k as int), mappings@),
            decreases stored.len() - k,
        {
            let ghost current = device_views(devices@);
            proof {
                assert(all.take(k + 1).drop_last() =~= all.take(k as int));
                assert(all.take(k + 1).last() == stored@[k as int]@);
            }
            let (device, touched) = restore(&stored[k], mappings, vendors);
            if touched {
                changed = true;
            }
            if device.validate() {
                match find_ip(&devices, &device.ip) {
                    Some(at) => {
                        proof {
                            assert(current[at as int].ip == device@.ip);
                            let chosen = place_of(current, device@.ip);
                            assert(chosen == at) by {
                                if chosen < at {
                                    assert(current[chosen].ip != current[at as int].ip);
                                } else if chosen > at {
                                    assert(current[at as int].ip != current[chosen].ip);
                                }
                            }
                        }
                        if device.last_seen.is_after(&devices[at].last_seen) {
                            let ghost entering = device@;
                            devices.set(at, device);
                            changed = true;
                            proof {
                                let after = device_views(devices@);
                                assert(after =~= current.update(at as int, entering));
                                assert forall|i: int, j: int|
                                    0 <= i < j < after.len() implies (#[trigger] after[i]).ip != (
                                #[trigger] after[j]).ip by {
                                    assert(current[i].ip != current[j].ip);
                                }
                                assert forall|i: int| 0 <= i < after.len() implies (
                                #[trigger] after[i]).valid() by {
                                    assert(current[i].valid());
                                }
                            }
                        }
                    },
                    None => {
                        let ghost entering = device@;
                        devices.push(device);
                        proof {
                            let after = device_views(devices@);
                            assert(after =~= current.push(entering));
                            assert forall|i: int, j: int|
                                0 <= i < j < after.len() implies (#[trigger] after[i]).ip != (
                            #[trigger] after[j]).ip by {
                                if j == after.len() - 1 {
                                    assert(current[i].ip != entering.ip);
                                } else {
                                    assert(current[i].ip != current[j].ip);
                                }
                            }
                            assert forall|i: int| 0 <= i < after.len() implies (
                            #[trigger] after[i]).valid() by {
                                if i < current.len() {
                                    assert(current[i].valid());
                                }
                            }
                        }
                    },
                }
            }
            k = k + 1;
        }
        proof {
            assert(all.take(k as int) =~= all);
        }
        (Registry { devices }, changed)
    }
}

} // verus!
