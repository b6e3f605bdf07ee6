//! What holds of every merge: the blacklist wins, going offline is announced
//! once, and a scan merged twice changes nothing the second time.

use crate::models::{DeviceStatus, DeviceView, Timestamp};
use crate::monitor::{absorbed, absorbed_all, absorbed_event, absorbed_events, admitted,
    blacklisted, corrected, corrected_all, dirty, goes_offline, knows, merge_events, merged,
    observed, offline_events, overdue, place_of, same_record, seen_in, settled, settled_all,
    well_formed, EventView};
use vstd::prelude::*;

verus! {

/// In a well-formed registry the place of an address is the only place that has it.
pub proof fn lemma_place(registry: Seq<DeviceView>, at: int)
    requires
        well_formed(registry),
        0 <= at < registry.len(),
    ensures
        knows(registry, registry[at].ip),
        place_of(registry, registry[at].ip) == at,
{
    let ip = registry[at].ip;
    assert(knows(registry, ip));
    let chosen = place_of(registry, ip);
    if chosen < at {
        assert(registry[chosen].ip != registry[at].ip);
    } else if chosen > at {
        assert(registry[at].ip != registry[chosen].ip);
    }
}

/// One found device changes at most the device with its address, or adds one.
pub proof fn lemma_absorbed(
    registry: Seq<DeviceView>,
    found: DeviceView,
    blacklist: Seq<Seq<char>>,
    now: Timestamp,
)
    requires
        well_formed(registry),
    ensures
        ({
            let after = absorbed(registry, found, blacklist, now);
            let blocked = blacklisted(blacklist, found.mac);
            &&& well_formed(after)
            &&& registry.len() <= after.len() <= registry.len() + 1
            &&& forall|i: int|
                0 <= i < registry.len() ==> (#[trigger] after[i]).ip == registry[i].ip
            &&& forall|i: int|
                0 <= i < registry.len() && !(found.valid() && found.ip == registry[i].ip)
                    ==> #[trigger] after[i] == registry[i]
            &&& forall|i: int|
                0 <= i < registry.len() && found.valid() && found.ip == registry[i].ip
                    ==> #[trigger] after[i] == observed(registry[i], found, blocked, now)
            &&& after.len() == registry.len() + 1 ==> found.valid() && !knows(registry, found.ip)
                && after[registry.len() as int] == admitted(found, blocked)
            &&& found.valid() ==> knows(after, found.ip)
        }),
{
    let after = absorbed(registry, found, blacklist, now);
    let blocked = blacklisted(blacklist, found.mac);
    if !found.valid() {
    } else if knows(registry, found.ip) {
        let at = place_of(registry, found.ip);
        lemma_place(registry, at);
        assert(after[at].ip == found.ip);
        assert forall|i: int, j: int| 0 <= i < j < after.len() implies (#[trigger] after[i]).ip != (
        #[trigger] after[j]).ip by {
            assert(registry[i].ip != registry[j].ip);
        }
        assert forall|i: int| 0 <= i < after.len() implies (#[trigger] after[i]).valid() by {
            assert(registry[i].valid());
        }
        assert forall|i: int|
            0 <= i < registry.len() && found.ip == registry[i].ip implies #[trigger] after[i]
            == observed(registry[i], found, blocked, now) by {
            lemma_place(registry, i);
        }
    } else {
        assert(after[registry.len() as int].ip == found.ip);
        assert forall|i: int, j: int| 0 <= i < j < after.len() implies (#[trigger] after[i]).ip != (
        #[trigger] after[j]).ip by {
            if j == registry.len() {
                assert(registry[i].ip != found.ip);
            } else {
                assert(registry[i].ip != registry[j].ip);
            }
        }
        assert forall|i: int| 0 <= i < after.len() implies (#[trigger] after[i]).valid() by {
            if i < registry.len() {
                assert(registry[i].valid());
            }
        }
    }
}

/// Whether a scan saw an address, by its last device and the ones before.
pub proof fn lemma_seen_in_step(found: Seq<DeviceView>, ip: Seq<char>)
    requires
        found.len() > 0,
    ensures
        seen_in(found, ip) == (seen_in(found.drop_last(), ip) || (found.last().valid()
            && found.last().ip == ip)),
{
    let front = found.drop_last();
    if seen_in(front, ip) {
        let w = choose|w: int| 0 <= w < front.len() && (#[trigger] front[w]).valid() && front[w].ip == ip;
        assert(found[w] == front[w]);
    }
    if found.last().valid() && found.last().ip == ip {
        assert(found[found.len() - 1] == found.last());
    }
    if seen_in(found, ip) {
        let w = choose|w: int| 0 <= w < found.len() && (#[trigger] found[w]).valid() && found[w].ip == ip;
        if w < front.len() {
            assert(front[w] == found[w]);
        }
    }
}

/// Across a whole scan the registry stays well formed and keeps its devices in
/// place; a device whose address was not seen is left as it was, and every
/// device added has an address that was seen and was not known.
pub proof fn lemma_absorbed_all(
    registry: Seq<DeviceView>,
    found: Seq<DeviceView>,
    blacklist: Seq<Seq<char>>,
    now: Timestamp,
)
    requires
        well_formed(registry),
    ensures
        ({
            let after = absorbed_all(registry, found, blacklist, now);
            &&& well_formed(after)
            &&& registry.len() <= after.len()
            &&& forall|i: int|
                0 <= i < registry.len() ==> (#[trigger] after[i]).ip == registry[i].ip
            &&& forall|i: int|
                0 <= i < registry.len() && !seen_in(found, registry[i].ip) ==> #[trigger] after[i]
                    == registry[i]
            &&& forall|i: int|
                registry.len() <= i < after.len() ==> seen_in(found, (#[trigger] after[i]).ip)
                    && !knows(registry, after[i].ip)
            &&& forall|k: int|
                0 <= k < found.len() && (#[trigger] found[k]).valid() ==> knows(after, found[k].ip)
        }),
    decreases found.len(),
{
    if found.len() > 0 {
        let front = found.drop_last();
        let last = found.last();
        lemma_absorbed_all(registry, front, blacklist, now);
        let middle = absorbed_all(registry, front, blacklist, now);
        lemma_absorbed(middle, last, blacklist, now);
        let after = absorbed(middle, last, blacklist, now);
        assert(after == absorbed_all(registry, found, blacklist, now));
        assert forall|i: int|
            0 <= i < registry.len() && !seen_in(found, registry[i].ip) implies #[trigger] after[i]
            == registry[i] by {
            lemma_seen_in_step(found, registry[i].ip);
            assert(middle[i].ip == registry[i].ip);
            assert(middle[i] == registry[i]);
        }
        assert forall|i: int| registry.len() <= i < after.len() implies seen_in(
            found,
            (#[trigger] after[i]).ip,
        ) && !knows(registry, after[i].ip) by {
            lemma_seen_in_step(found, after[i].ip);
            if i < middle.len() {
                assert(after[i].ip == middle[i].ip);
                assert(seen_in(front, middle[i].ip));
            } else {
                assert(after[i] == admitted(last, blacklisted(blacklist, last.mac)));
                if knows(registry, last.ip) {
                    let w = choose|w: int|
                        0 <= w < registry.len() && (#[trigger] registry[w]).ip == last.ip;
                    assert(middle[w].ip == last.ip);
                    assert(knows(middle, last.ip));
                }
            }
        }
        assert forall|k: int| 0 <= k < found.len() && (#[trigger] found[k]).valid() implies knows(
            after,
            found[k].ip,
        ) by {
            if k < front.len() {
                assert(front[k] == found[k]);
                assert(knows(middle, front[k].ip));
                let w = choose|w: int|
                    0 <= w < middle.len() && (#[trigger] middle[w]).ip == front[k].ip;
                assert(after[w].ip == front[k].ip);
            }
        }
    }
}

/// A device whose address is blacklisted is blocked after every merge, whether
/// or not it answered.
pub proof fn law_blacklist_precedence(
    registry: Seq<DeviceView>,
    found: Seq<DeviceView>,
    blacklist: Seq<Seq<char>>,
    now: Timestamp,
    interval: u64,
)
    ensures
        forall|i: int|
            #![trigger merged(registry, found, blacklist, now, interval)[i]]
            0 <= i < merged(registry, found, blacklist, now, interval).len() && blacklisted(
                blacklist,
                merged(registry, found, blacklist, now, interval)[i].mac,
            ) ==> merged(registry, found, blacklist, now, interval)[i].status
                == DeviceStatus::Block,
{
}

/// How often the events announce that the device at `ip` went offline.
pub open spec fn offline_count(events: Seq<EventView>, ip: Seq<char>) -> nat
    decreases events.len(),
{
    if events.len() == 0 {
        0
    } else {
        let earlier = offline_count(events.drop_last(), ip);
        if events.last() == (EventView::WentOffline { ip }) {
            earlier + 1
        } else {
            earlier
        }
    }
}

/// Counting over two runs of events adds up.
pub proof fn lemma_offline_count_add(a: Seq<EventView>, b: Seq<EventView>, ip: Seq<char>)
    ensures
        offline_count(a + b, ip) == offline_count(a, ip) + offline_count(b, ip),
    decreases b.len(),
{
    if b.len() == 0 {
        assert(a + b =~= a);
    } else {
        lemma_offline_count_add(a, b.drop_last(), ip);
        assert((a + b).drop_last() =~= a + b.drop_last());
        assert((a + b).last() == b.last());
    }
}

/// The found devices never announce that a device went offline.
pub proof fn lemma_absorbed_events_online(
    registry: Seq<DeviceView>,
    found: Seq<DeviceView>,
    blacklist: Seq<Seq<char>>,
    now: Timestamp,
    ip: Seq<char>,
)
    ensures
        offline_count(absorbed_events(registry, found, blacklist, now), ip) == 0,
    decreases found.len(),
{
    if found.len() > 0 {
        lemma_absorbed_events_online(registry, found.drop_last(), blacklist, now, ip);
        let earlier = absorbed_events(registry, found.drop_last(), blacklist, now);
        let all = absorbed_events(registry, found, blacklist, now);
        match absorbed_event(
            absorbed_all(registry, found.drop_last(), blacklist, now),
            found.last(),
            blacklist,
        ) {
            Some(event) => {
                assert(all.drop_last() =~= earlier);
                assert(all.last() == event);
            },
            None => {},
        }
    }
}

/// Among devices with different addresses, going offline is announced once for
/// the device that does, and never for another.
pub proof fn lemma_offline_events_count(
    registry: Seq<DeviceView>,
    found: Seq<DeviceView>,
    blacklist: Seq<Seq<char>>,
    now: Timestamp,
    interval: u64,
    ip: Seq<char>,
)
    requires
        well_formed(registry),
    ensures
        offline_count(offline_events(registry, found, blacklist, now, interval), ip) == (if knows(
            registry,
            ip,
        ) && goes_offline(
            registry[place_of(registry, ip)],
            seen_in(found, ip),
            blacklist,
            now,
            interval,
        ) {
            1nat
        } else {
            0nat
        }),
    decreases registry.len(),
{
    if registry.len() > 0 {
        let front = registry.drop_last();
        let last = registry.last();
        let n = registry.len() - 1;
        assert(well_formed(front)) by {
            assert forall|i: int| 0 <= i < front.len() implies (#[trigger] front[i]).valid() by {
                assert(registry[i].valid());
            }
            assert forall|i: int, j: int| 0 <= i < j < front.len() implies (#[trigger] front[i]).ip
                != (#[trigger] front[j]).ip by {
                assert(registry[i].ip != registry[j].ip);
            }
        }
        lemma_offline_events_count(front, found, blacklist, now, interval, ip);
        let earlier = offline_events(front, found, blacklist, now, interval);
        let all = offline_events(registry, found, blacklist, now, interval);
        if goes_offline(last, seen_in(found, last.ip), blacklist, now, interval) {
            assert(all.drop_last() =~= earlier);
            assert(all.last() == (EventView::WentOffline { ip: last.ip }));
        }
        if knows(front, ip) {
            let w = place_of(front, ip);
            assert(registry[w] == front[w]);
            lemma_place(registry, w);
            assert(registry[w].ip != registry[n].ip);
        } else if last.ip == ip {
            lemma_place(registry, n);
        } else {
            if knows(registry, ip) {
                let w = place_of(registry, ip);
                assert(front[w] == registry[w]);
            }
        }
    } else {
        assert(!knows(registry, ip));
    }
}

/// A device that is online, not blacklisted, unseen in this scan and overdue
/// goes offline with exactly one announcement; while it stays unseen, later
/// scans leave it offline and announce nothing more of it.
pub proof fn law_offline_edge_trigger(
    registry: Seq<DeviceView>,
    at: int,
    found: Seq<DeviceView>,
    later_found: Seq<DeviceView>,
    blacklist: Seq<Seq<char>>,
    now: Timestamp,
    later: Timestamp,
    interval: u64,
)
    requires
        well_formed(registry),
        0 <= at < registry.len(),
        !seen_in(found, registry[at].ip),
        !seen_in(later_found, registry[at].ip),
        registry[at].status == DeviceStatus::Online,
        !blacklisted(blacklist, registry[at].mac),
        overdue(registry[at].last_seen, now, interval),
    ensures
        ({
            let ip = registry[at].ip;
            let first = merged(registry, found, blacklist, now, interval);
            let second = merged(first, later_found, blacklist, later, interval);
            &&& at < first.len() && first[at].ip == ip
            &&& first[at].status == DeviceStatus::Offline
            &&& offline_count(merge_events(registry, found, blacklist, now, interval), ip) == 1
            &&& at < second.len() && second[at].ip == ip
            &&& second[at].status == DeviceStatus::Offline
            &&& offline_count(merge_events(first, later_found, blacklist, later, interval), ip)
                == 0
        }),
{
    let ip = registry[at].ip;
    let middle = absorbed_all(registry, found, blacklist, now);
    lemma_absorbed_all(registry, found, blacklist, now);
    assert(middle[at] == registry[at]);
    let first = merged(registry, found, blacklist, now, interval);
    assert(first[at] == settled(middle[at], seen_in(found, middle[at].ip), blacklist, now, interval));
    lemma_place(middle, at);
    lemma_absorbed_events_online(registry, found, blacklist, now, ip);
    lemma_offline_events_count(middle, found, blacklist, now, interval, ip);
    lemma_offline_count_add(
        absorbed_events(registry, found, blacklist, now),
        offline_events(middle, found, blacklist, now, interval),
        ip,
    );
    lemma_merged_well_formed(registry, found, blacklist, now, interval);
    let again = absorbed_all(first, later_found, blacklist, later);
    lemma_absorbed_all(first, later_found, blacklist, later);
    assert(again[at] == first[at]);
    let second = merged(first, later_found, blacklist, later, interval);
    assert(second[at] == settled(
        again[at],
        seen_in(later_found, again[at].ip),
        blacklist,
        later,
        interval,
    ));
    lemma_place(again, at);
    lemma_absorbed_events_online(first, later_found, blacklist, later, ip);
    lemma_offline_events_count(again, later_found, blacklist, later, interval, ip);
    lemma_offline_count_add(
        absorbed_events(first, later_found, blacklist, later),
        offline_events(again, later_found, blacklist, later, interval),
        ip,
    );
}

/// A merge leaves a well-formed registry, with the known devices in their places.
pub proof fn lemma_merged_well_formed(
    registry: Seq<DeviceView>,
    found: Seq<DeviceView>,
    blacklist: Seq<Seq<char>>,
    now: Timestamp,
    interval: u64,
)
    requires
        well_formed(registry),
    ensures
        well_formed(merged(registry, found, blacklist, now, interval)),
        registry.len() <= merged(registry, found, blacklist, now, interval).len(),
        forall|i: int|
            0 <= i < registry.len() ==> (#[trigger] merged(
                registry,
                found,
                blacklist,
                now,
                interval,
            )[i]).ip == registry[i].ip,
{
    let middle = absorbed_all(registry, found, blacklist, now);
    lemma_absorbed_all(registry, found, blacklist, now);
    let after = merged(registry, found, blacklist, now, interval);
    assert forall|i: int| 0 <= i < after.len() implies (#[trigger] after[i]).valid() by {
        assert(middle[i].valid());
    }
    assert forall|i: int, j: int| 0 <= i < j < after.len() implies (#[trigger] after[i]).ip != (
    #[trigger] after[j]).ip by {
        assert(middle[i].ip != middle[j].ip);
    }
    assert forall|i: int| 0 <= i < registry.len() implies (#[trigger] after[i]).ip
        == registry[i].ip by {
        assert(middle[i].ip == registry[i].ip);
    }
}

/// What the sightings of one address in a scan make of the device at that
/// address: the known device, if there is one, observed once for each valid
/// device of the scan with the address, in order; without a known device the
/// first of them is admitted and the others are observed.
pub open spec fn after_sightings(
    start: Option<DeviceView>,
    found: Seq<DeviceView>,
    ip: Seq<char>,
    blacklist: Seq<Seq<char>>,
    now: Timestamp,
) -> Option<DeviceView>
    decreases found.len(),
{
    if found.len() == 0 {
        start
    } else {
        let before = after_sightings(start, found.drop_last(), ip, blacklist, now);
        let last = found.last();
        if last.valid() && last.ip == ip {
            let blocked = blacklisted(blacklist, last.mac);
            Some(
                match before {
                    Some(known) => observed(known, last, blocked, now),
                    None => admitted(last, blocked),
                },
            )
        } else {
            before
        }
    }
}

/// A scan that does not hold an address leaves the device at it alone.
pub proof fn lemma_no_sighting(
    start: Option<DeviceView>,
    found: Seq<DeviceView>,
    ip: Seq<char>,
    blacklist: Seq<Seq<char>>,
    now: Timestamp,
)
    requires
        !seen_in(found, ip),
    ensures
        after_sightings(start, found, ip, blacklist, now) == start,
    decreases found.len(),
{
    if found.len() > 0 {
        lemma_seen_in_step(found, ip);
        lemma_no_sighting(start, found.drop_last(), ip, blacklist, now);
    }
}

/// A known device stays a device whatever the scan holds.
pub proof fn lemma_known_stays(
    known: DeviceView,
    found: Seq<DeviceView>,
    ip: Seq<char>,
    blacklist: Seq<Seq<char>>,
    now: Timestamp,
)
    ensures
        after_sightings(Some(known), found, ip, blacklist, now) is Some,
    decreases found.len(),
{
    if found.len() > 0 {
        lemma_known_stays(known, found.drop_last(), ip, blacklist, now);
    }
}

/// After a sighting there is a device, it is not offline, and its status does
/// not depend on what was known before.
pub proof fn lemma_sighted_status(
    start: Option<DeviceView>,
    other: Option<DeviceView>,
    found: Seq<DeviceView>,
    ip: Seq<char>,
    blacklist: Seq<Seq<char>>,
    now: Timestamp,
)
    requires
        seen_in(found, ip),
    ensures
        after_sightings(start, found, ip, blacklist, now) is Some,
        after_sightings(other, found, ip, blacklist, now) is Some,
        after_sightings(start, found, ip, blacklist, now)->0.status != DeviceStatus::Offline,
        after_sightings(start, found, ip, blacklist, now)->0.status == after_sightings(
            other,
            found,
            ip,
            blacklist,
            now,
        )->0.status,
    decreases found.len(),
{
    lemma_seen_in_step(found, ip);
    let last = found.last();
    if !(last.valid() && last.ip == ip) {
        lemma_sighted_status(start, other, found.drop_last(), ip, blacklist, now);
    }
}

/// Each device of the registry after a scan is what the sightings of its
/// address made of the device that stood there before, or of none.
pub proof fn lemma_absorbed_all_at(
    registry: Seq<DeviceView>,
    found: Seq<DeviceView>,
    blacklist: Seq<Seq<char>>,
    now: Timestamp,
    i: int,
)
    requires
        well_formed(registry),
        0 <= i < absorbed_all(registry, found, blacklist, now).len(),
    ensures
        ({
            let after = absorbed_all(registry, found, blacklist, now);
            let start = if i < registry.len() {
                Some(registry[i])
            } else {
                None
            };
            after_sightings(start, found, after[i].ip, blacklist, now) == Some(after[i])
        }),
    decreases found.len(),
{
    let after = absorbed_all(registry, found, blacklist, now);
    let start = if i < registry.len() {
        Some(registry[i])
    } else {
        None
    };
    if found.len() > 0 {
        let front = found.drop_last();
        let last = found.last();
        let middle = absorbed_all(registry, front, blacklist, now);
        lemma_absorbed_all(registry, front, blacklist, now);
        lemma_absorbed(middle, last, blacklist, now);
        assert(after == absorbed(middle, last, blacklist, now));
        let ip = after[i].ip;
        if i < middle.len() {
            lemma_absorbed_all_at(registry, front, blacklist, now, i);
            assert(middle[i].ip == ip);
        } else {
            assert(after[i] == admitted(last, blacklisted(blacklist, last.mac)));
            assert(!knows(middle, last.ip));
            if seen_in(front, last.ip) {
                let k = choose|k: int|
                    0 <= k < front.len() && (#[trigger] front[k]).valid() && front[k].ip == last.ip;
                assert(knows(middle, front[k].ip));
            }
            lemma_no_sighting(start, front, ip, blacklist, now);
        }
    }
}

/// Seeing the scan again leaves vendor, host name and virtual address where
/// the first round put them.
pub proof fn lemma_sighted_fields(
    start: Option<DeviceView>,
    again: DeviceView,
    found: Seq<DeviceView>,
    ip: Seq<char>,
    blacklist: Seq<Seq<char>>,
    now: Timestamp,
)
    requires
        seen_in(found, ip),
    ensures
        ({
            let first = after_sightings(start, found, ip, blacklist, now)->0;
            let second = after_sightings(Some(again), found, ip, blacklist, now)->0;
            &&& again.vendor == first.vendor ==> second.vendor == first.vendor
            &&& again.hostname == first.hostname ==> second.hostname == first.hostname
            &&& again.virtual_mac == first.virtual_mac ==> second.virtual_mac == first.virtual_mac
        }),
    decreases found.len(),
{
    lemma_seen_in_step(found, ip);
    let front = found.drop_last();
    let last = found.last();
    lemma_known_stays(again, front, ip, blacklist, now);
    if seen_in(front, ip) {
        lemma_sighted_fields(start, again, front, ip, blacklist, now);
        lemma_sighted_status(start, Some(again), front, ip, blacklist, now);
    } else {
        lemma_no_sighting(start, front, ip, blacklist, now);
        lemma_no_sighting(Some(again), front, ip, blacklist, now);
    }
}

/// No virtual address of a scan is the address of another device of the scan
/// at the same IP address: where one valid device comes with the address of
/// another as its virtual one, the two have the same address. So it is in a
/// scan without repeated IP addresses, and in every scan as correction leaves it.
pub open spec fn uncrossed(found: Seq<DeviceView>) -> bool {
    forall|a: int, b: int|
        0 <= a < found.len() && 0 <= b < found.len() && (#[trigger] found[a]).valid() && (
        #[trigger] found[b]).valid() && found[a].ip == found[b].ip && found[b].virtual_mac == Some(
            found[a].mac,
        ) ==> found[b].mac == found[a].mac
}

/// No sighting of the address `ip` that comes with `mac` as its virtual address
/// has another address than `mac`.
pub open spec fn settled_mac(mac: Seq<char>, found: Seq<DeviceView>, ip: Seq<char>) -> bool {
    forall|b: int|
        0 <= b < found.len() && (#[trigger] found[b]).valid() && found[b].ip == ip
            && found[b].virtual_mac == Some(mac) ==> found[b].mac == mac
}

/// Some sighting of the address `ip` has the hardware address `mac`.
pub open spec fn sighted_mac(mac: Seq<char>, found: Seq<DeviceView>, ip: Seq<char>) -> bool {
    exists|a: int|
        0 <= a < found.len() && (#[trigger] found[a]).valid() && found[a].ip == ip && found[a].mac
            == mac
}

/// The hardware address of the last sighting of `ip` that comes without a
/// virtual address.
pub open spec fn last_plain(found: Seq<DeviceView>, ip: Seq<char>) -> Option<Seq<char>>
    decreases found.len(),
{
    if found.len() == 0 {
        None
    } else {
        let last = found.last();
        if last.valid() && last.ip == ip && last.virtual_mac is None {
            Some(last.mac)
        } else {
            last_plain(found.drop_last(), ip)
        }
    }
}

/// What holds of a scan holds of the scan without its last device.
pub proof fn lemma_front(found: Seq<DeviceView>, mac: Seq<char>, ip: Seq<char>)
    requires
        found.len() > 0,
    ensures
        uncrossed(found) ==> uncrossed(found.drop_last()),
        settled_mac(mac, found, ip) ==> settled_mac(mac, found.drop_last(), ip),
        sighted_mac(mac, found.drop_last(), ip) ==> sighted_mac(mac, found, ip),
{
    let front = found.drop_last();
    if uncrossed(found) {
        assert forall|a: int, b: int|
            0 <= a < front.len() && 0 <= b < front.len() && (#[trigger] front[a]).valid() && (
            #[trigger] front[b]).valid() && front[a].ip == front[b].ip && front[b].virtual_mac
                == Some(front[a].mac) implies front[b].mac == front[a].mac by {
            assert(found[a] == front[a] && found[b] == front[b]);
        }
    }
    if settled_mac(mac, found, ip) {
        assert forall|b: int|
            0 <= b < front.len() && (#[trigger] front[b]).valid() && front[b].ip == ip
                && front[b].virtual_mac == Some(mac) implies front[b].mac == mac by {
            assert(found[b] == front[b]);
        }
    }
    if sighted_mac(mac, front, ip) {
        let a = choose|a: int|
            0 <= a < front.len() && (#[trigger] front[a]).valid() && front[a].ip == ip
                && front[a].mac == mac;
        assert(found[a] == front[a]);
    }
}

/// The address of the last plain sighting is the address of a sighting.
pub proof fn lemma_last_plain_sighted(found: Seq<DeviceView>, ip: Seq<char>)
    ensures
        last_plain(found, ip) is Some ==> sighted_mac(last_plain(found, ip)->0, found, ip),
    decreases found.len(),
{
    if found.len() > 0 {
        let last = found.last();
        if last.valid() && last.ip == ip && last.virtual_mac is None {
            assert(found[found.len() - 1] == last);
        } else {
            lemma_last_plain_sighted(found.drop_last(), ip);
            if last_plain(found, ip) is Some {
                lemma_front(found, last_plain(found, ip)->0, ip);
            }
        }
    }
}

/// In an uncrossed scan the address of a sighting is not moved by a virtual
/// address.
pub proof fn lemma_sighted_is_settled(mac: Seq<char>, found: Seq<DeviceView>, ip: Seq<char>)
    requires
        uncrossed(found),
        sighted_mac(mac, found, ip),
    ensures
        settled_mac(mac, found, ip),
{
    let a = choose|a: int|
        0 <= a < found.len() && (#[trigger] found[a]).valid() && found[a].ip == ip && found[a].mac
            == mac;
    assert forall|b: int|
        0 <= b < found.len() && (#[trigger] found[b]).valid() && found[b].ip == ip
            && found[b].virtual_mac == Some(mac) implies found[b].mac == mac by {
        assert(found[a].ip == found[b].ip);
    }
}

/// Where the sightings leave the hardware address depends on the address known
/// before and on nothing else of the known device.
pub proof fn lemma_mac_by_mac(
    one: DeviceView,
    other: DeviceView,
    found: Seq<DeviceView>,
    ip: Seq<char>,
    blacklist: Seq<Seq<char>>,
    now: Timestamp,
)
    requires
        one.mac == other.mac,
    ensures
        after_sightings(Some(one), found, ip, blacklist, now) is Some,
        after_sightings(Some(other), found, ip, blacklist, now) is Some,
        after_sightings(Some(one), found, ip, blacklist, now)->0.mac == after_sightings(
            Some(other),
            found,
            ip,
            blacklist,
            now,
        )->0.mac,
    decreases found.len(),
{
    if found.len() > 0 {
        lemma_mac_by_mac(one, other, found.drop_last(), ip, blacklist, now);
    }
}

/// In an uncrossed scan the sightings leave the address of the last plain
/// sighting, if there is one; and they leave either the address known before or
/// the address of a sighting.
pub proof fn lemma_mac_after_sightings(
    start: Option<DeviceView>,
    found: Seq<DeviceView>,
    ip: Seq<char>,
    blacklist: Seq<Seq<char>>,
    now: Timestamp,
)
    requires
        uncrossed(found),
    ensures
        ({
            let after = after_sightings(start, found, ip, blacklist, now);
            after is Some ==> {
                &&& last_plain(found, ip) is Some ==> after->0.mac == last_plain(found, ip)->0
                &&& (start is Some && after->0.mac == start->0.mac) || sighted_mac(
                    after->0.mac,
                    found,
                    ip,
                )
            }
        }),
    decreases found.len(),
{
    if found.len() > 0 {
        let front = found.drop_last();
        let last = found.last();
        let n = found.len() - 1;
        assert(found[n] == last);
        let before = after_sightings(start, front, ip, blacklist, now);
        let after = after_sightings(start, found, ip, blacklist, now);
        lemma_front(found, last.mac, ip);
        lemma_mac_after_sightings(start, front, ip, blacklist, now);
        lemma_last_plain_sighted(front, ip);
        if before is Some {
            lemma_front(found, before->0.mac, ip);
        }
        if last.valid() && last.ip == ip {
            assert(sighted_mac(last.mac, found, ip));
            match before {
                Some(known) => {
                    if last.virtual_mac is Some && last_plain(front, ip) is Some {
                        let plain = last_plain(front, ip)->0;
                        lemma_front(found, plain, ip);
                        lemma_sighted_is_settled(plain, found, ip);
                    }
                },
                None => {
                    if last_plain(front, ip) is Some {
                        let a = choose|a: int|
                            0 <= a < front.len() && (#[trigger] front[a]).valid() && front[a].ip
                                == ip && front[a].mac == last_plain(front, ip)->0;
                        assert(seen_in(front, ip));
                        lemma_sighted_status(start, start, front, ip, blacklist, now);
                    }
                },
            }
        }
    }
}

/// In an uncrossed scan, from an address that no virtual address moves, the
/// sightings lead to the address of the last plain sighting, or leave the
/// address as it is.
pub proof fn lemma_mac_from_settled(
    known: DeviceView,
    found: Seq<DeviceView>,
    ip: Seq<char>,
    blacklist: Seq<Seq<char>>,
    now: Timestamp,
)
    requires
        uncrossed(found),
        settled_mac(known.mac, found, ip),
    ensures
        after_sightings(Some(known), found, ip, blacklist, now) is Some,
        after_sightings(Some(known), found, ip, blacklist, now)->0.mac == (if last_plain(found, ip)
            is Some {
            last_plain(found, ip)->0
        } else {
            known.mac
        }),
    decreases found.len(),
{
    lemma_known_stays(known, found, ip, blacklist, now);
    if found.len() > 0 {
        let front = found.drop_last();
        let last = found.last();
        let n = found.len() - 1;
        assert(found[n] == last);
        lemma_front(found, known.mac, ip);
        lemma_mac_from_settled(known, front, ip, blacklist, now);
        lemma_known_stays(known, front, ip, blacklist, now);
        if last.valid() && last.ip == ip && last.virtual_mac is Some {
            if last_plain(front, ip) is Some {
                let plain = last_plain(front, ip)->0;
                lemma_last_plain_sighted(front, ip);
                lemma_front(found, plain, ip);
                lemma_sighted_is_settled(plain, found, ip);
            }
        }
    }
}

/// In an uncrossed scan, seeing the scan again leaves the hardware address
/// where the first round put it.
pub proof fn lemma_sighted_mac(
    start: Option<DeviceView>,
    again: DeviceView,
    found: Seq<DeviceView>,
    ip: Seq<char>,
    blacklist: Seq<Seq<char>>,
    now: Timestamp,
)
    requires
        uncrossed(found),
        seen_in(found, ip),
        again.mac == after_sightings(start, found, ip, blacklist, now)->0.mac,
    ensures
        after_sightings(Some(again), found, ip, blacklist, now) is Some,
        after_sightings(Some(again), found, ip, blacklist, now)->0.mac == again.mac,
{
    lemma_sighted_status(start, Some(again), found, ip, blacklist, now);
    lemma_mac_after_sightings(start, found, ip, blacklist, now);
    if sighted_mac(again.mac, found, ip) {
        lemma_sighted_is_settled(again.mac, found, ip);
        lemma_mac_from_settled(again, found, ip, blacklist, now);
    } else {
        lemma_mac_by_mac(again, start->0, found, ip, blacklist, now);
    }
}

/// A device that was seen settles into a record that seeing the scan again
/// leaves alone, provided the scan is uncrossed; and it is not offline.
pub proof fn lemma_seen_again(
    start: Option<DeviceView>,
    found: Seq<DeviceView>,
    ip: Seq<char>,
    blacklist: Seq<Seq<char>>,
    now: Timestamp,
    interval: u64,
)
    requires
        uncrossed(found),
        seen_in(found, ip),
    ensures
        ({
            let first = after_sightings(start, found, ip, blacklist, now)->0;
            let once = settled(first, true, blacklist, now, interval);
            let second = after_sightings(Some(once), found, ip, blacklist, now)->0;
            let twice = settled(second, true, blacklist, now, interval);
            &&& same_record(once, twice)
            &&& once.status != DeviceStatus::Offline
        }),
{
    let first = after_sightings(start, found, ip, blacklist, now)->0;
    let once = settled(first, true, blacklist, now, interval);
    lemma_sighted_status(start, Some(once), found, ip, blacklist, now);
    lemma_sighted_fields(start, once, found, ip, blacklist, now);
    lemma_sighted_mac(start, once, found, ip, blacklist, now);
}

/// Where no device goes offline, none is announced to.
pub proof fn lemma_no_offline_events(
    registry: Seq<DeviceView>,
    found: Seq<DeviceView>,
    blacklist: Seq<Seq<char>>,
    now: Timestamp,
    interval: u64,
)
    requires
        forall|i: int|
            0 <= i < registry.len() ==> !goes_offline(
                #[trigger] registry[i],
                seen_in(found, registry[i].ip),
                blacklist,
                now,
                interval,
            ),
    ensures
        offline_events(registry, found, blacklist, now, interval) == Seq::<EventView>::empty(),
    decreases registry.len(),
{
    if registry.len() > 0 {
        let front = registry.drop_last();
        assert forall|i: int| 0 <= i < front.len() implies !goes_offline(
            #[trigger] front[i],
            seen_in(found, front[i].ip),
            blacklist,
            now,
            interval,
        ) by {
            assert(front[i] == registry[i]);
        }
        lemma_no_offline_events(front, found, blacklist, now, interval);
        assert(registry.last() == registry[registry.len() - 1]);
    }
}

/// A device that was not seen settles into a record that settling again, with
/// the clock unmoved, leaves alone, and does not go offline a second time.
pub proof fn lemma_unseen_twice(
    start: DeviceView,
    blacklist: Seq<Seq<char>>,
    now: Timestamp,
    interval: u64,
)
    ensures
        ({
            let once = settled(start, false, blacklist, now, interval);
            let twice = settled(once, false, blacklist, now, interval);
            &&& same_record(once, twice)
            &&& !goes_offline(once, false, blacklist, now, interval)
        }),
{
}

/// A device that is not offline is not offline after a scan was absorbed.
pub proof fn lemma_absorbed_all_status(
    registry: Seq<DeviceView>,
    found: Seq<DeviceView>,
    blacklist: Seq<Seq<char>>,
    now: Timestamp,
    i: int,
)
    requires
        well_formed(registry),
        0 <= i < registry.len(),
        registry[i].status != DeviceStatus::Offline,
    ensures
        i < absorbed_all(registry, found, blacklist, now).len(),
        absorbed_all(registry, found, blacklist, now)[i].status != DeviceStatus::Offline,
    decreases found.len(),
{
    if found.len() > 0 {
        let front = found.drop_last();
        let middle = absorbed_all(registry, front, blacklist, now);
        lemma_absorbed_all_status(registry, front, blacklist, now, i);
        lemma_absorbed_all(registry, front, blacklist, now);
        lemma_absorbed(middle, found.last(), blacklist, now);
    }
}

/// A scan whose devices are all known, and none of them offline, announces
/// nothing while it is absorbed.
pub proof fn lemma_no_absorbed_events(
    registry: Seq<DeviceView>,
    found: Seq<DeviceView>,
    blacklist: Seq<Seq<char>>,
    now: Timestamp,
)
    requires
        well_formed(registry),
        forall|k: int|
            0 <= k < found.len() && (#[trigger] found[k]).valid() ==> knows(registry, found[k].ip)
                && registry[place_of(registry, found[k].ip)].status != DeviceStatus::Offline,
    ensures
        absorbed_events(registry, found, blacklist, now) == Seq::<EventView>::empty(),
    decreases found.len(),
{
    if found.len() > 0 {
        let front = found.drop_last();
        let last = found.last();
        let n = found.len() - 1;
        assert(found[n] == last);
        assert forall|k: int| 0 <= k < front.len() && (#[trigger] front[k]).valid() implies knows(
            registry,
            front[k].ip,
        ) && registry[place_of(registry, front[k].ip)].status != DeviceStatus::Offline by {
            assert(front[k] == found[k]);
        }
        lemma_no_absorbed_events(registry, front, blacklist, now);
        let middle = absorbed_all(registry, front, blacklist, now);
        lemma_absorbed_all(registry, front, blacklist, now);
        if last.valid() {
            let at = place_of(registry, last.ip);
            assert(registry[at].ip == last.ip);
            assert(middle[at].ip == last.ip);
            lemma_place(middle, at);
            lemma_absorbed_all_status(registry, front, blacklist, now, at);
        }
    }
}

/// After a merge of an uncrossed scan every device whose address was seen is
/// known and not offline.
pub proof fn lemma_merged_knows_found(
    registry: Seq<DeviceView>,
    found: Seq<DeviceView>,
    blacklist: Seq<Seq<char>>,
    now: Timestamp,
    interval: u64,
)
    requires
        well_formed(registry),
        uncrossed(found),
    ensures
        ({
            let once = merged(registry, found, blacklist, now, interval);
            forall|k: int|
                0 <= k < found.len() && (#[trigger] found[k]).valid() ==> knows(once, found[k].ip)
                    && once[place_of(once, found[k].ip)].status != DeviceStatus::Offline
        }),
{
    let first = absorbed_all(registry, found, blacklist, now);
    let once = merged(registry, found, blacklist, now, interval);
    lemma_merged_well_formed(registry, found, blacklist, now, interval);
    assert forall|k: int| 0 <= k < found.len() && (#[trigger] found[k]).valid() implies knows(
        once,
        found[k].ip,
    ) && once[place_of(once, found[k].ip)].status != DeviceStatus::Offline by {
        let ip = found[k].ip;
        assert(knows(first, ip)) by {
            lemma_absorbed_all(registry, found, blacklist, now);
        }
        let w = choose|w: int| 0 <= w < first.len() && (#[trigger] first[w]).ip == ip;
        assert(once[w] == settled(first[w], seen_in(found, first[w].ip), blacklist, now, interval));
        assert(once[w].ip == ip);
        lemma_place(once, w);
        assert(seen_in(found, ip));
        lemma_absorbed_all_at(registry, found, blacklist, now, w);
        let start = if w < registry.len() {
            Some(registry[w])
        } else {
            None
        };
        lemma_seen_again(start, found, ip, blacklist, now, interval);
    }
}

/// Absorbing a scan into the outcome of its own merge adds no device.
pub proof fn lemma_again_same_length(
    registry: Seq<DeviceView>,
    found: Seq<DeviceView>,
    blacklist: Seq<Seq<char>>,
    now: Timestamp,
    interval: u64,
)
    requires
        well_formed(registry),
    ensures
        ({
            let first = absorbed_all(registry, found, blacklist, now);
            let once = merged(registry, found, blacklist, now, interval);
            let second = absorbed_all(once, found, blacklist, now);
            second.len() == once.len() && first.len() == once.len()
        }),
{
    let first = absorbed_all(registry, found, blacklist, now);
    let once = merged(registry, found, blacklist, now, interval);
    let second = absorbed_all(once, found, blacklist, now);
    lemma_merged_well_formed(registry, found, blacklist, now, interval);
    lemma_absorbed_all(once, found, blacklist, now);
    if second.len() > once.len() {
        let extra = once.len() as int;
        let ip = second[extra].ip;
        assert(seen_in(found, ip) && !knows(once, ip));
        let k = choose|k: int|
            0 <= k < found.len() && (#[trigger] found[k]).valid() && found[k].ip == ip;
        assert(knows(first, found[k].ip)) by {
            lemma_absorbed_all(registry, found, blacklist, now);
        }
        let w = choose|w: int| 0 <= w < first.len() && (#[trigger] first[w]).ip == ip;
        assert(once[w].ip == ip);
    }
}

/// What the two rounds of absorbing hold at one place.
pub proof fn lemma_again_at(
    registry: Seq<DeviceView>,
    found: Seq<DeviceView>,
    blacklist: Seq<Seq<char>>,
    now: Timestamp,
    interval: u64,
    i: int,
)
    requires
        well_formed(registry),
        0 <= i < merged(registry, found, blacklist, now, interval).len(),
    ensures
        ({
            let first = absorbed_all(registry, found, blacklist, now);
            let once = merged(registry, found, blacklist, now, interval);
            let second = absorbed_all(once, found, blacklist, now);
            let ip = once[i].ip;
            let start = if i < registry.len() {
                Some(registry[i])
            } else {
                None
            };
            &&& i < second.len()
            &&& second[i].ip == ip
            &&& first[i].ip == ip
            &&& once[i] == settled(first[i], seen_in(found, ip), blacklist, now, interval)
            &&& after_sightings(start, found, ip, blacklist, now) == Some(first[i])
            &&& after_sightings(Some(once[i]), found, ip, blacklist, now) == Some(second[i])
            &&& !seen_in(found, ip) ==> second[i] == once[i] && i < registry.len() && first[i]
                == registry[i]
        }),
{
    let first = absorbed_all(registry, found, blacklist, now);
    let once = merged(registry, found, blacklist, now, interval);
    let second = absorbed_all(once, found, blacklist, now);
    let ip = once[i].ip;
    assert(once[i] == settled(first[i], seen_in(found, first[i].ip), blacklist, now, interval));
    assert(first[i].ip == ip);
    lemma_again_same_length(registry, found, blacklist, now, interval);
    assert(well_formed(once)) by {
        lemma_merged_well_formed(registry, found, blacklist, now, interval);
    }
    assert(second[i].ip == ip) by {
        lemma_absorbed_all(once, found, blacklist, now);
    }
    lemma_absorbed_all_at(registry, found, blacklist, now, i);
    lemma_absorbed_all_at(once, found, blacklist, now, i);
    if !seen_in(found, ip) {
        assert(second[i] == once[i]) by {
            lemma_absorbed_all(once, found, blacklist, now);
        }
        assert(i < registry.len() && first[i] == registry[i]) by {
            lemma_absorbed_all(registry, found, blacklist, now);
            if i >= registry.len() {
                assert(seen_in(found, first[i].ip));
            } else {
                assert(registry[i].ip == first[i].ip);
            }
        }
    }
}

/// Merging the same scan a second time, with the clock unmoved, changes no
/// record and announces nothing, provided the scan is uncrossed.
pub proof fn law_merge_idempotent(
    registry: Seq<DeviceView>,
    found: Seq<DeviceView>,
    blacklist: Seq<Seq<char>>,
    now: Timestamp,
    interval: u64,
)
    requires
        well_formed(registry),
        uncrossed(found),
    ensures
        ({
            let once = merged(registry, found, blacklist, now, interval);
            let twice = merged(once, found, blacklist, now, interval);
            &&& !dirty(once, twice)
            &&& merge_events(once, found, blacklist, now, interval) == Seq::<EventView>::empty()
        }),
{
    let first = absorbed_all(registry, found, blacklist, now);
    let once = merged(registry, found, blacklist, now, interval);
    let second = absorbed_all(once, found, blacklist, now);
    let twice = merged(once, found, blacklist, now, interval);
    lemma_again_same_length(registry, found, blacklist, now, interval);
    assert forall|i: int| 0 <= i < once.len() implies same_record(#[trigger] once[i], twice[i]) by {
        let ip = once[i].ip;
        lemma_again_at(registry, found, blacklist, now, interval, i);
        assert(twice[i] == settled(second[i], seen_in(found, second[i].ip), blacklist, now, interval));
        if seen_in(found, ip) {
            let start = if i < registry.len() {
                Some(registry[i])
            } else {
                None
            };
            lemma_seen_again(start, found, ip, blacklist, now, interval);
        } else {
            lemma_unseen_twice(first[i], blacklist, now, interval);
        }
    }
    assert(absorbed_events(once, found, blacklist, now) == Seq::<EventView>::empty()) by {
        lemma_merged_well_formed(registry, found, blacklist, now, interval);
        lemma_merged_knows_found(registry, found, blacklist, now, interval);
        lemma_no_absorbed_events(once, found, blacklist, now);
    }
    assert forall|i: int| 0 <= i < second.len() implies !goes_offline(
        #[trigger] second[i],
        seen_in(found, second[i].ip),
        blacklist,
        now,
        interval,
    ) by {
        lemma_again_at(registry, found, blacklist, now, interval, i);
        if !seen_in(found, once[i].ip) {
            lemma_unseen_twice(first[i], blacklist, now, interval);
        }
    }
    lemma_no_offline_events(second, found, blacklist, now, interval);
    assert(merge_events(once, found, blacklist, now, interval) =~= Seq::<EventView>::empty());
}

/// A scan as the scanner hands it over is uncrossed once its addresses are
/// corrected: at an address with a mapping every device gets the mapped
/// address, and elsewhere a virtual address is the device's own.
pub proof fn lemma_corrected_uncrossed(seen: Seq<DeviceView>, mappings: Map<Seq<char>, Seq<char>>)
    requires
        forall|k: int| 0 <= k < seen.len() ==> (#[trigger] seen[k]).virtual_mac is None,
    ensures
        uncrossed(corrected_all(seen, mappings)),
{
    let found = corrected_all(seen, mappings);
    assert forall|a: int, b: int|
        0 <= a < found.len() && 0 <= b < found.len() && (#[trigger] found[a]).valid() && (
        #[trigger] found[b]).valid() && found[a].ip == found[b].ip && found[b].virtual_mac == Some(
            found[a].mac,
        ) implies found[b].mac == found[a].mac by {
        assert(found[a] == corrected(seen[a], mappings));
        assert(found[b] == corrected(seen[b], mappings));
        assert(seen[a].virtual_mac is None && seen[b].virtual_mac is None);
    }
}

/// One cycle of the monitor run a second time on the same scan, with the same
/// mappings and blacklist and the clock unmoved, changes no record and
/// announces nothing: nothing is written and nobody is notified.
pub proof fn law_cycle_idempotent(
    registry: Seq<DeviceView>,
    seen: Seq<DeviceView>,
    mappings: Map<Seq<char>, Seq<char>>,
    blacklist: Seq<Seq<char>>,
    now: Timestamp,
    interval: u64,
)
    requires
        well_formed(registry),
        forall|k: int| 0 <= k < seen.len() ==> (#[trigger] seen[k]).virtual_mac is None,
    ensures
        ({
            let found = corrected_all(seen, mappings);
            let once = merged(registry, found, blacklist, now, interval);
            let twice = merged(once, found, blacklist, now, interval);
            &&& !dirty(once, twice)
            &&& merge_events(once, found, blacklist, now, interval) == Seq::<EventView>::empty()
        }),
{
    lemma_corrected_uncrossed(seen, mappings);
    law_merge_idempotent(registry, corrected_all(seen, mappings), blacklist, now, interval);
}

} // verus!
