//! What is read back from the device file: only the valid records are kept.

use crate::models::{Device, DeviceView};
use crate::monitor::device_views;
use vstd::prelude::*;

verus! {

/// The valid devices of a list, in their order.
pub open spec fn valid_only(devices: Seq<DeviceView>) -> Seq<DeviceView>
    decreases devices.len(),
{
    if devices.len() == 0 {
        Seq::empty()
    } else {
        let front = valid_only(devices.drop_last());
        if devices.last().valid() {
            front.push(devices.last())
        } else {
            front
        }
    }
}

/// The number of invalid devices in a list.
pub open spec fn invalid_count(devices: Seq<DeviceView>) -> nat
    decreases devices.len(),
{
    if devices.len() == 0 {
        0
    } else {
        invalid_count(devices.drop_last()) + if devices.last().valid() {
            0nat
        } else {
            1nat
        }
    }
}

/// What was loaded: the records kept, and how many were dropped as corrupt.
#[derive(Debug)]
pub struct Loaded {
    pub devices: Vec<Device>,
    pub dropped: usize,
}

/// Keeps the valid records of what a file held and counts the others.
pub fn keep_valid(records: &Vec<Device>) -> (out: Loaded)
    ensures
        device_views(out.devices@) == valid_only(device_views(records@)),
        out.dropped == invalid_count(device_views(records@)),
        out.devices.len() + out.dropped == records.len(),
{
    let ghost all = device_views(records@);
    let mut devices: Vec<Device> = Vec::new();
    let mut dropped: usize = 0;
    let mut i: usize = 0;
    proof {
        assert(all.take(0) =~= Seq::<DeviceView>::empty());
        assert(device_views(devices@) =~= Seq::<DeviceView>::empty());
    }
    while i < records.len()
        invariant
            i <= records.len(),
            all == device_views(records@),
            device_views(devices@) == valid_only(all.take(i as int)),
            dropped == invalid_count(all.take(i as int)),
            devices.len() + dropped == i,
        decreases records.len() - i,
    {
        let ghost kept = device_views(devices@);
        proof {
            assert(all.take(i + 1).drop_last() =~= all.take(i as int));
            assert(all.take(i + 1).last() == records@[i as int]@);
        }
        if records[i].validate() {
            devices.push(records[i].clone());
            assert(device_views(devices@) =~= kept.push(records@[i as int]@));
        } else {
            dropped = dropped + 1;
        }
        i = i + 1;
    }
    proof {
        assert(all.take(i as int) =~= all);
    }
    Loaded { devices, dropped }
}

/// Records that are all valid come back as they were, none dropped: what was
/// written from a registry is read back unchanged.
pub proof fn law_valid_records_kept(devices: Seq<DeviceView>)
    requires
        forall|i: int| 0 <= i < devices.len() ==> (#[trigger] devices[i]).valid(),
    ensures
        valid_only(devices) == devices,
        invalid_count(devices) == 0,
    decreases devices.len(),
{
    if devices.len() > 0 {
        let front = devices.drop_last();
        assert forall|i: int| 0 <= i < front.len() implies (#[trigger] front[i]).valid() by {
            assert(front[i] == devices[i]);
        }
        law_valid_records_kept(front);
        assert(devices.last() == devices[devices.len() - 1]);
        assert(front.push(devices.last()) =~= devices);
    } else {
        assert(valid_only(devices) =~= devices);
    }
}

/// Every record is either kept or counted as dropped, and only valid ones are kept.
pub proof fn law_invalid_records_dropped(devices: Seq<DeviceView>)
    ensures
        valid_only(devices).len() + invalid_count(devices) == devices.len(),
        forall|i: int| 0 <= i < valid_only(devices).len() ==> (#[trigger] valid_only(devices)[i]).valid(),
    decreases devices.len(),
{
    if devices.len() > 0 {
        law_invalid_records_dropped(devices.drop_last());
    }
}

} // verus!
